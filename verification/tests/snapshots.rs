use habit_tracker::app::{App, DeserializationError, ViewMode};
use habit_tracker::date::Date;
use habit_tracker::event::Direction;
use habit_tracker::grid::GridLayout;
use habit_tracker::habit::{Bit, Count, Habit};

const SAMPLE: &str = "{\"habits\":[{\"kind\":\"count\",\"name\":\"gym\",\"target\":5,\"ledger\":[[2020,4,11,7],[2020,4,12,8],[2020,4,13,9],[2020,4,14,10],[2020,4,15,11]]}],\"focus\":0}";

fn day(year: i32, month: u32, day: u32) -> Date {
    Date::from_ymd(year, month, day).unwrap()
}

fn load(text: &str) -> Result<App, DeserializationError> {
    App::load_state(text, GridLayout::default())
}

fn sample() -> App {
    let mut app = App::new();
    app.add_habit(Habit::Count(Count::sample()));
    app
}

fn mixed() -> App {
    let mut app = App::new();
    let mut read = Bit::new("read \"Dune\" \\ notes\n\tpage\u{1}\u{1f} caf\u{e9} \u{1F600}", 1);
    read.insert_entry(day(2020, 4, 11), true);
    read.insert_entry(day(2020, 4, 12), false);
    read.insert_entry(day(-44, 3, 15), false);
    read.insert_entry(day(0, 1, 1), true);
    read.insert_entry(day(262_142, 12, 31), true);
    read.insert_entry(day(-262_143, 1, 1), true);
    app.add_habit(Habit::Bit(read));
    app.add_habit(Habit::Count(Count::sample()));
    let mut water = Count::new("water", u32::MAX);
    water.insert_entry(day(2020, 4, 13), 0);
    water.insert_entry(day(2020, 4, 15), u32::MAX);
    water.insert_entry(day(2020, 10, 10), 10);
    app.add_habit(Habit::Count(water));
    app.add_habit(Habit::Bit(Bit::new("", 0)));
    app.set_focus(Direction::Right);
    app.set_focus(Direction::Right);
    app
}

/// The tracker as loading leaves it: in month mode.
fn as_loaded(mut app: App) -> App {
    app.set_mode(ViewMode::Month);
    app
}

#[test]
fn a_snapshot_is_written_in_one_fixed_shape() {
    assert_eq!(sample().save_state(), SAMPLE);
    assert_eq!(App::new().save_state(), "{\"habits\":[],\"focus\":0}");
    let mut app = App::new();
    let mut read = Bit::new("a\"b\\c\n", 3);
    read.insert_entry(day(-44, 3, 15), false);
    read.insert_entry(day(2020, 12, 1), true);
    app.add_habit(Habit::Bit(read));
    app.add_habit(Habit::Count(Count::new("none", 0)));
    app.set_focus(Direction::Right);
    assert_eq!(
        app.save_state(),
        "{\"habits\":[{\"kind\":\"bit\",\"name\":\"a\\\"b\\\\c\\u000a\",\"target\":3,\"ledger\":[[-44,3,15,false],[2020,12,1,true]]},{\"kind\":\"count\",\"name\":\"none\",\"target\":0,\"ledger\":[]}],\"focus\":1}"
    );
}

#[test]
fn a_saved_tracker_is_loaded_as_it_was() {
    for app in [App::new(), sample(), mixed()] {
        let text = app.save_state();
        let loaded = load(&text).unwrap();
        assert_eq!(loaded.habit_count(), app.habit_count());
        for index in 0..app.habit_count() {
            assert_eq!(loaded.habit(index), app.habit(index));
        }
        assert_eq!(loaded.focus(), app.focus());
        assert_eq!(loaded, as_loaded(app));
        assert_eq!(loaded.save_state(), text);
    }
}

#[test]
fn a_loaded_tracker_is_in_month_mode_with_the_layout_given() {
    let mut app = mixed();
    app.set_mode(ViewMode::Year);
    let layout = GridLayout::new(10, 4, 2).unwrap();
    let loaded = App::load_state(&app.save_state(), layout).unwrap();
    assert_eq!(loaded.view_mode(), ViewMode::Month);
    assert_eq!(loaded.layout(), layout);
    assert_eq!(loaded.focus(), 2);
    assert_eq!(load(SAMPLE).unwrap(), as_loaded(sample()));
}

#[test]
fn every_character_of_a_name_comes_back() {
    let mut name = String::new();
    for code in 0u32..0x250 {
        name.push(char::from_u32(code).unwrap());
    }
    name.push('\u{FFFF}');
    name.push('\u{10FFFF}');
    let mut app = App::new();
    app.add_habit(Habit::Bit(Bit::new(&name, 1)));
    let loaded = load(&app.save_state()).unwrap();
    assert_eq!(loaded.habit(0).name(), name);
}

#[test]
fn a_snapshot_is_json() {
    let text = mixed().save_state();
    let value: serde_json::Value = serde_json::from_str(&text).unwrap();
    assert_eq!(value["focus"].as_u64(), Some(2));
    let habits = value["habits"].as_array().unwrap();
    assert_eq!(habits.len(), 4);
    assert_eq!(habits[0]["kind"].as_str(), Some("bit"));
    assert_eq!(
        habits[0]["name"].as_str(),
        Some("read \"Dune\" \\ notes\n\tpage\u{1}\u{1f} caf\u{e9} \u{1F600}")
    );
    assert_eq!(habits[0]["target"].as_u64(), Some(1));
    let ledger = habits[0]["ledger"].as_array().unwrap();
    assert_eq!(ledger.len(), 6);
    assert_eq!(ledger[0][0].as_i64(), Some(-262_143));
    assert_eq!(ledger[0][3].as_bool(), Some(true));
    assert_eq!(ledger[1][0].as_i64(), Some(-44));
    assert_eq!(ledger[1][1].as_u64(), Some(3));
    assert_eq!(ledger[1][2].as_u64(), Some(15));
    assert_eq!(ledger[1][3].as_bool(), Some(false));
    assert_eq!(habits[1]["kind"].as_str(), Some("count"));
    assert_eq!(habits[1]["name"].as_str(), Some("gym"));
    assert_eq!(habits[1]["ledger"][4][3].as_u64(), Some(11));
    assert_eq!(habits[2]["target"].as_u64(), Some(u32::MAX as u64));
    assert_eq!(habits[3]["ledger"].as_array().unwrap().len(), 0);
}

#[test]
fn json_written_anew_in_the_same_shape_is_loaded() {
    let text = mixed().save_state();
    let value: serde_json::Value = serde_json::from_str(&text).unwrap();
    assert_eq!(value["habits"][1]["name"].as_str(), Some("gym"));
    // serde_json orders the keys of an object by name, which is another shape
    let again = serde_json::to_string(&value).unwrap();
    if again == text {
        assert_eq!(load(&again).unwrap(), as_loaded(mixed()));
    } else {
        assert!(load(&again).is_err());
    }
}

#[test]
fn text_that_ends_early_is_no_snapshot() {
    for end in 0..SAMPLE.len() {
        assert_eq!(load(&SAMPLE[..end]).unwrap_err(), DeserializationError);
    }
    assert!(load(SAMPLE).is_ok());
}

#[test]
fn text_of_another_shape_is_no_snapshot() {
    let wrong = [
        "",
        " ",
        "{}",
        "[]",
        "null",
        "{\"habits\":[],\"focus\":0} ",
        " {\"habits\":[],\"focus\":0}",
        "{\"habits\":[],\"focus\":0}}",
        "{\"habits\": [],\"focus\":0}",
        "{\"focus\":0,\"habits\":[]}",
        "{\"habits\":[],\"focus\":00}",
        "{\"habits\":[],\"focus\":-0}",
        "{\"habits\":[],\"focus\":}",
        "{\"habits\":[,],\"focus\":0}",
        "{\"habits\":[{\"kind\":\"tally\",\"name\":\"gym\",\"target\":5,\"ledger\":[]}],\"focus\":0}",
        "{\"habits\":[{\"kind\":\"count\",\"name\":\"gym\",\"target\":5,\"ledger\":[],}],\"focus\":0}",
        "{\"habits\":[{\"kind\":\"count\",\"name\":\"gym\",\"target\":5,\"ledger\":[]},],\"focus\":0}",
        "{\"habits\":[{\"kind\":\"count\",\"name\":gym,\"target\":5,\"ledger\":[]}],\"focus\":0}",
        "{\"habits\":[{\"kind\":\"count\",\"name\":\"gym\",\"target\":05,\"ledger\":[]}],\"focus\":0}",
        "{\"habits\":[{\"kind\":\"count\",\"name\":\"gym\",\"target\":-5,\"ledger\":[]}],\"focus\":0}",
        "{\"habits\":[{\"kind\":\"count\",\"name\":\"gym\",\"target\":5,\"ledger\":[[2020,4,11,true]]}],\"focus\":0}",
        "{\"habits\":[{\"kind\":\"bit\",\"name\":\"gym\",\"target\":5,\"ledger\":[[2020,4,11,1]]}],\"focus\":0}",
        "{\"habits\":[{\"kind\":\"bit\",\"name\":\"gym\",\"target\":5,\"ledger\":[[2020,4,11,True]]}],\"focus\":0}",
        "{\"habits\":[{\"kind\":\"count\",\"name\":\"gym\",\"target\":5,\"ledger\":[[2020,4,11]]}],\"focus\":0}",
        "{\"habits\":[{\"kind\":\"count\",\"name\":\"gym\",\"target\":5,\"ledger\":[[2020,04,11,7]]}],\"focus\":0}",
        "{\"habits\":[{\"kind\":\"count\",\"name\":\"gym\",\"target\":5,\"ledger\":[[+2020,4,11,7]]}],\"focus\":0}",
    ];
    for text in wrong {
        assert_eq!(load(text).unwrap_err(), DeserializationError, "{}", text);
    }
}

#[test]
fn a_name_is_read_only_as_it_would_be_written() {
    let with_name = |name: &str| {
        format!(
            "{{\"habits\":[{{\"kind\":\"count\",\"name\":\"{}\",\"target\":5,\"ledger\":[]}}],\"focus\":0}}",
            name
        )
    };
    assert_eq!(load(&with_name("a\\\"b")).unwrap().habit(0).name(), "a\"b");
    assert_eq!(load(&with_name("a\\\\b")).unwrap().habit(0).name(), "a\\b");
    assert_eq!(load(&with_name("a\\u000ab")).unwrap().habit(0).name(), "a\nb");
    assert_eq!(load(&with_name("a\\u001fb")).unwrap().habit(0).name(), "a\u{1f}b");
    assert_eq!(load(&with_name("a/b")).unwrap().habit(0).name(), "a/b");
    for name in ["a\\nb", "a\\u000Ab", "a\\u0041b", "a\\u0020b", "a\\/b", "a\nb", "a\\", "a\\u00", "a\"b"] {
        assert!(load(&with_name(name)).is_err(), "{}", name);
    }
}

#[test]
fn numbers_beyond_their_range_are_no_snapshot() {
    let with_target = |target: &str| {
        format!(
            "{{\"habits\":[{{\"kind\":\"count\",\"name\":\"gym\",\"target\":{},\"ledger\":[[2020,4,11,7]]}}],\"focus\":0}}",
            target
        )
    };
    assert_eq!(load(&with_target("4294967295")).unwrap().habit(0).target(), u32::MAX);
    assert!(load(&with_target("4294967296")).is_err());
    assert!(load(&with_target("99999999999999999999999999999999999999999999")).is_err());
    let with_amount = |amount: &str| {
        format!(
            "{{\"habits\":[{{\"kind\":\"count\",\"name\":\"gym\",\"target\":1,\"ledger\":[[2020,4,11,{}]]}}],\"focus\":0}}",
            amount
        )
    };
    assert!(load(&with_amount("4294967295")).is_ok());
    assert!(load(&with_amount("4294967296")).is_err());
    assert!(load(&with_amount("18446744073709551616")).is_err());
}

#[test]
fn a_focus_on_no_habit_is_no_snapshot() {
    let with_focus = |habits: usize, focus: &str| {
        let one = "{\"kind\":\"bit\",\"name\":\"x\",\"target\":1,\"ledger\":[]}";
        format!("{{\"habits\":[{}],\"focus\":{}}}", vec![one; habits].join(","), focus)
    };
    assert!(load(&with_focus(0, "0")).is_ok());
    assert!(load(&with_focus(0, "1")).is_err());
    assert!(load(&with_focus(3, "0")).is_ok());
    assert_eq!(load(&with_focus(3, "2")).unwrap().focus(), 2);
    assert!(load(&with_focus(3, "3")).is_err());
    assert!(load(&with_focus(3, "18446744073709551615")).is_err());
    assert!(load(&with_focus(3, "18446744073709551616")).is_err());
    assert!(load(&with_focus(3, "340282366920938463463374607431768211456")).is_err());
}

#[test]
fn a_ledger_out_of_order_or_off_the_calendar_is_no_snapshot() {
    let with_ledger = |kind: &str, ledger: &str| {
        format!(
            "{{\"habits\":[{{\"kind\":\"{}\",\"name\":\"gym\",\"target\":5,\"ledger\":[{}]}}],\"focus\":0}}",
            kind, ledger
        )
    };
    assert!(load(&with_ledger("count", "[2020,4,11,7],[2020,4,12,8]")).is_ok());
    assert!(load(&with_ledger("count", "[2020,4,12,7],[2020,4,11,8]")).is_err());
    assert!(load(&with_ledger("count", "[2020,4,11,7],[2020,4,11,8]")).is_err());
    assert!(load(&with_ledger("count", "[2020,4,11,7],[2020,4,12,8],[2020,4,12,8]")).is_err());
    assert!(load(&with_ledger("bit", "[2020,4,11,true],[2020,4,10,true]")).is_err());
    assert!(load(&with_ledger("bit", "[2020,4,11,true],[2021,1,1,false]")).is_ok());
    assert!(load(&with_ledger("count", "[2020,2,29,7]")).is_ok());
    assert!(load(&with_ledger("count", "[2021,2,29,7]")).is_err());
    assert!(load(&with_ledger("count", "[2021,13,1,7]")).is_err());
    assert!(load(&with_ledger("count", "[2021,0,1,7]")).is_err());
    assert!(load(&with_ledger("count", "[2021,1,0,7]")).is_err());
    assert!(load(&with_ledger("count", "[262142,12,31,7]")).is_ok());
    assert!(load(&with_ledger("count", "[262143,1,1,7]")).is_err());
    assert!(load(&with_ledger("count", "[-262143,1,1,7]")).is_ok());
    assert!(load(&with_ledger("count", "[-262144,12,31,7]")).is_err());
    assert!(load(&with_ledger("count", "[99999999999,1,1,7]")).is_err());
    assert!(load(&with_ledger("count", "[2021,4294967297,1,7]")).is_err());
    assert!(load(&with_ledger("count", "[2021,1,4294967297,7]")).is_err());
    assert!(load(&with_ledger("count", "[-0,1,1,7]")).is_err());
    assert!(load(&with_ledger("count", "[0,1,1,7]")).is_ok());
}
