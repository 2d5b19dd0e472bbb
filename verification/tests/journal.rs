use bujo::{BujoError, BujoObject, Data, Day, Signifier};
use chrono::{Local, TimeZone};
use std::path::PathBuf;

const DAY: Day = Day { first: 86_400, last: 172_799 };
const YESTERDAY: i64 = 50_000;
const MORNING: i64 = 90_000;
const NOON: i64 = 130_000;
const EVENING: i64 = 170_000;
const TOMORROW: i64 = 200_000;

fn empty() -> Data {
    let path: PathBuf = ["./"].iter().collect();
    Data::new(&path)
}

fn record(kind: &str, text: &str, date: i64) -> BujoObject {
    let sign = match kind {
        "note" => Signifier::Note,
        "event" => Signifier::Event,
        _ => Signifier::Task,
    };
    BujoObject {
        content_type: String::from(kind),
        content: String::from(text),
        signifier: sign.value(),
        current_date: date,
        date_added: date,
        daily_id: 0,
        subtasks: Vec::new(),
    }
}

fn with_children(mut parent: BujoObject, children: Vec<(i64, BujoObject)>) -> BujoObject {
    parent.subtasks = children;
    parent
}

fn ids(data: &Data) -> Vec<i64> {
    data.content.iter().map(|e| e.1.daily_id).collect()
}

#[test]
fn new_journal_is_empty() {
    let path: PathBuf = ["some", "where"].iter().collect();
    let data = Data::new(&path);
    assert!(data.content.is_empty());
    assert_eq!(data.data_dir, path);
    assert_eq!(data.get_max_key(), 0);
    assert_eq!(data.get_max_daily_id(), 0);
}

#[test]
fn glyphs_are_the_four_markers() {
    assert_eq!(Signifier::Complete.value(), "\u{00D7}");
    assert_eq!(Signifier::Task.value(), "\u{00B7}");
    assert_eq!(Signifier::Note.value(), "-");
    assert_eq!(Signifier::Event.value(), "\u{25CB}");
}

#[test]
fn kinds_are_read_from_their_names() {
    assert_eq!(Signifier::from_kind(&String::from("note")), Signifier::Note);
    assert_eq!(Signifier::from_kind(&String::from("event")), Signifier::Event);
    assert_eq!(Signifier::from_kind(&String::from("task")), Signifier::Task);
    assert_eq!(Signifier::from_kind(&String::from("anything")), Signifier::Task);
    assert_eq!(Signifier::from_kind(&String::from("")), Signifier::Task);
    assert_eq!(Signifier::Note.kind_name(), "note");
    assert_eq!(Signifier::Event.kind_name(), "event");
    assert_eq!(Signifier::Task.kind_name(), "task");
    assert_eq!(Signifier::Complete.kind_name(), "task");
}

#[test]
fn every_error_has_its_sentence() {
    assert_eq!(
        BujoError::StorageMissing.message(),
        "It appears that the data directory does not exist yet. Try run `bujo init` first"
    );
    assert_eq!(BujoError::MalformedDocument.message(), "The journal file could not be read");
    assert_eq!(BujoError::DateFormatInvalid.message(), "The date must be written as YYYYMMDD");
    assert_eq!(BujoError::ReferenceNotFound.message(), "No record carries that identifier");
    assert_eq!(BujoError::IoFailure.message(), "There was no data directory to write to");
}

#[test]
fn added_records_take_the_next_key() {
    let mut data = empty();
    assert_eq!(data.add_object_at(String::from("a"), String::from("task"), MORNING), 0);
    assert_eq!(data.add_object_at(String::from("b"), String::from("note"), NOON), 1);
    assert_eq!(data.add_object_at(String::from(""), String::from("event"), EVENING), 2);
    assert_eq!(data.get_max_key(), 2);
    let last = &data.content[2].1;
    assert_eq!(last.content, "");
    assert_eq!(last.content_type, "event");
    assert_eq!(last.signifier, Signifier::Event.value());
    assert_eq!(last.current_date, EVENING);
    assert_eq!(last.date_added, EVENING);
    assert_eq!(last.daily_id, 3);
    assert!(last.subtasks.is_empty());
}

#[test]
fn unknown_kind_is_a_task() {
    let mut data = empty();
    data.add_object_at(String::from("a"), String::from("chore"), MORNING);
    assert_eq!(data.content[0].1.content_type, "task");
    assert_eq!(data.content[0].1.signifier, Signifier::Task.value());
}

#[test]
fn key_of_deleted_maximum_is_used_again() {
    let mut data = empty();
    data.add_object_at(String::from("a"), String::from("task"), MORNING);
    data.add_object_at(String::from("b"), String::from("task"), MORNING);
    assert_eq!(data.delete_object(&1), Ok(()));
    assert_eq!(data.add_object_at(String::from("c"), String::from("task"), MORNING), 1);
    assert_eq!(data.delete_object(&0), Ok(()));
    assert_eq!(data.add_object_at(String::from("d"), String::from("task"), MORNING), 2);
}

#[test]
fn add_object_stamps_the_current_instant() {
    let mut data = empty();
    let before = Local::now().timestamp();
    let key = data.add_object(String::from("now"), String::from("task"));
    let after = Local::now().timestamp();
    assert_eq!(key, 0);
    let made = &data.content[0].1;
    assert!(before <= made.current_date && made.current_date <= after);
    assert_eq!(made.current_date, made.date_added);
}

#[test]
fn delete_removes_the_record_and_what_is_under_it() {
    let mut data = empty();
    data.content.push((
        4,
        with_children(record("task", "root", MORNING), vec![(1, record("task", "leaf", MORNING))]),
    ));
    data.content.push((9, record("note", "other", MORNING)));
    assert_eq!(data.delete_object(&4), Ok(()));
    assert_eq!(data.content.len(), 1);
    assert_eq!(data.content[0].0, 9);
}

#[test]
fn delete_of_absent_key_is_refused() {
    let mut data = empty();
    data.add_object_at(String::from("a"), String::from("task"), MORNING);
    assert_eq!(data.delete_object(&7), Err(BujoError::ReferenceNotFound));
    assert_eq!(data.content.len(), 1);
    // A nested record cannot be deleted by its key.
    data.content[0].1.subtasks.push((7, record("task", "leaf", MORNING)));
    assert_eq!(data.delete_object(&7), Err(BujoError::ReferenceNotFound));
    assert_eq!(data.content[0].1.subtasks.len(), 1);
}

#[test]
fn largest_keys_and_identifiers() {
    let mut data = empty();
    data.content.push((-5, record("task", "a", MORNING)));
    assert_eq!(data.get_max_key(), -5);
    data.content.push((12, record("task", "b", MORNING)));
    data.content.push((3, record("task", "c", MORNING)));
    assert_eq!(data.get_max_key(), 12);
    data.content[0].1.daily_id = 8;
    data.content[2].1.daily_id = 2;
    assert_eq!(data.get_max_daily_id(), 8);
    assert_eq!(Data::get_max_subtask_key(&data.content), 12);
    assert_eq!(Data::get_max_subtask_key(&Vec::new()), 0);
}

#[test]
fn references_resolve_to_root_records_only() {
    let mut data = empty();
    data.content.push((10, record("task", "a", MORNING)));
    data.content.push((20, record("task", "b", MORNING)));
    data.content[0].1.daily_id = 2;
    data.content[1].1.daily_id = 1;
    data.content[1].1.subtasks.push((1, record("task", "leaf", MORNING)));
    data.content[1].1.subtasks[0].1.daily_id = 3;
    assert_eq!(data.get_primary_key(&1, String::from("daily")), Ok(20));
    assert_eq!(data.get_primary_key(&2, String::from("daily")), Ok(10));
    assert_eq!(data.get_primary_key(&3, String::from("daily")), Err(BujoError::ReferenceNotFound));
    assert_eq!(data.get_primary_key(&20, String::from("key")), Ok(20));
    assert_eq!(data.get_primary_key(&1, String::from("key")), Err(BujoError::ReferenceNotFound));
    assert_eq!(data.find(2, true), Some(0));
    assert_eq!(data.find(20, false), Some(1));
    assert_eq!(data.find(5, false), None);
}

#[test]
fn first_record_with_an_identifier_is_the_one_named() {
    let mut data = empty();
    data.content.push((10, record("task", "a", MORNING)));
    data.content.push((20, record("task", "b", MORNING)));
    data.content[0].1.daily_id = 4;
    data.content[1].1.daily_id = 4;
    assert_eq!(data.get_primary_key(&4, String::from("daily")), Ok(10));
}

#[test]
fn subtask_goes_under_the_named_root() {
    let mut data = empty();
    data.add_object_at(String::from("root"), String::from("task"), MORNING);
    data.add_object_at(String::from("other"), String::from("task"), MORNING);
    let data = data
        .add_subtask_at(2, String::from("daily"), String::from("leaf"), String::from("note"), NOON)
        .unwrap();
    assert!(data.content[0].1.subtasks.is_empty());
    let nested = &data.content[1].1.subtasks;
    assert_eq!(nested.len(), 1);
    assert_eq!(nested[0].0, 1);
    assert_eq!(nested[0].1.content, "leaf");
    assert_eq!(nested[0].1.content_type, "note");
    assert_eq!(nested[0].1.signifier, Signifier::Note.value());
    assert_eq!(nested[0].1.current_date, NOON);
    assert_eq!(nested[0].1.date_added, NOON);
    assert_eq!(nested[0].1.daily_id, 2);
    let data = data
        .add_subtask_at(1, String::from("key"), String::from("next"), String::from("task"), NOON)
        .unwrap();
    assert_eq!(data.content[1].1.subtasks[1].0, 2);
}

#[test]
fn subtask_under_nothing_is_refused() {
    let mut data = empty();
    data.add_object_at(String::from("root"), String::from("task"), MORNING);
    let refused =
        data.add_subtask_at(5, String::from("daily"), String::from("x"), String::from("task"), NOON);
    assert!(matches!(refused, Err(BujoError::ReferenceNotFound)));
    let mut data = empty();
    data.add_object_at(String::from("root"), String::from("task"), MORNING);
    let refused = data.add_subtask(5, String::from("key"), String::from("x"), String::from("task"));
    assert!(matches!(refused, Err(BujoError::ReferenceNotFound)));
}

#[test]
fn add_subtask_stamps_the_current_instant() {
    let mut data = empty();
    data.add_object_at(String::from("root"), String::from("task"), MORNING);
    let before = Local::now().timestamp();
    let data =
        data.add_subtask(0, String::from("key"), String::from("leaf"), String::from("task")).unwrap();
    let after = Local::now().timestamp();
    let leaf = &data.content[0].1.subtasks[0].1;
    assert!(before <= leaf.current_date && leaf.current_date <= after);
}

#[test]
fn numbering_follows_the_days() {
    let mut data = empty();
    data.content.push((0, record("task", "late", EVENING)));
    data.content.push((1, record("task", "gone", YESTERDAY)));
    data.content.push((2, record("task", "early", MORNING)));
    data.content.push((3, record("task", "ahead", TOMORROW)));
    data.content.push((4, record("task", "mid", NOON)));
    for entry in data.content.iter_mut() {
        entry.1.daily_id = 77;
    }
    let data = data.calculate_ids_for(&DAY);
    assert_eq!(ids(&data), vec![3, 0, 1, 0, 2]);
    let keys: Vec<i64> = data.content.iter().map(|e| e.0).collect();
    assert_eq!(keys, vec![0, 1, 2, 3, 4]);
}

#[test]
fn numbering_counts_the_first_and_the_last_second_of_the_day() {
    let mut data = empty();
    data.content.push((0, record("task", "too late", DAY.last + 1)));
    data.content.push((1, record("task", "last", DAY.last)));
    data.content.push((2, record("task", "first", DAY.first)));
    data.content.push((3, record("task", "too early", DAY.first - 1)));
    let data = data.calculate_ids_for(&DAY);
    assert_eq!(ids(&data), vec![0, 2, 1, 0]);
}

#[test]
fn records_of_one_instant_are_numbered_in_their_order() {
    let mut data = empty();
    data.content.push((5, record("task", "a", NOON)));
    data.content.push((3, record("task", "b", NOON)));
    data.content.push((9, record("task", "c", MORNING)));
    data.content.push((1, record("task", "d", NOON)));
    let data = data.calculate_ids_for(&DAY);
    assert_eq!(ids(&data), vec![2, 3, 1, 4]);
}

#[test]
fn nested_records_share_the_counter() {
    let mut data = empty();
    let leaf_of_b = with_children(
        record("task", "b1", YESTERDAY),
        vec![(1, record("task", "b1x", MORNING)), (2, record("task", "b1y", MORNING))],
    );
    data.content.push((0, record("task", "c", EVENING)));
    data.content.push((
        1,
        with_children(
            record("task", "b", NOON),
            vec![(1, leaf_of_b), (2, record("task", "b2", TOMORROW))],
        ),
    ));
    data.content.push((2, record("task", "a", MORNING)));
    let data = data.calculate_ids_for(&DAY);
    // a = 1, b = 2, then what is under b, then c.
    assert_eq!(ids(&data), vec![5, 2, 1]);
    let under_b = &data.content[1].1.subtasks;
    // Both are under a record of the day, so both are numbered, by ascending
    // day: b1 (yesterday) first, b2 (tomorrow) second.
    assert_eq!(under_b[0].1.daily_id, 3);
    assert_eq!(under_b[1].1.daily_id, 4);
    // What is under b1 goes by the day of b1, which is not the day.
    assert_eq!(under_b[0].1.subtasks[0].1.daily_id, 0);
    assert_eq!(under_b[0].1.subtasks[1].1.daily_id, 0);
}

#[test]
fn record_under_another_day_is_numbered_by_its_parent() {
    let mut data = empty();
    let child = with_children(
        record("task", "child", NOON),
        vec![(1, record("task", "grandchild", YESTERDAY))],
    );
    data.content.push((0, with_children(record("task", "root", YESTERDAY), vec![(1, child)])));
    data.content.push((1, record("task", "today", EVENING)));
    let data = data.calculate_ids_for(&DAY);
    // The root is not of the day, so its child takes 0 although the child
    // is; the grandchild is under a record of the day and is numbered first.
    assert_eq!(ids(&data), vec![0, 2]);
    assert_eq!(data.content[0].1.subtasks[0].1.daily_id, 0);
    assert_eq!(data.content[0].1.subtasks[0].1.subtasks[0].1.daily_id, 1);
}

#[test]
fn recursive_id_numbers_what_is_nested() {
    let data = empty();
    let parent = with_children(
        record("task", "p", NOON),
        vec![(1, record("task", "late", EVENING)), (2, record("task", "early", MORNING))],
    );
    let ((key, numbered), counter) = data.recursive_id((6, parent), 10, &DAY);
    assert_eq!(key, 6);
    assert_eq!(counter, 12);
    assert_eq!(numbered.daily_id, 0);
    assert_eq!(numbered.subtasks[0].1.daily_id, 11);
    assert_eq!(numbered.subtasks[1].1.daily_id, 10);
    let parent = with_children(
        record("task", "p", YESTERDAY),
        vec![(1, record("task", "late", EVENING))],
    );
    let ((_, numbered), counter) = data.recursive_id((6, parent), 10, &DAY);
    assert_eq!(counter, 10);
    assert_eq!(numbered.subtasks[0].1.daily_id, 0);
}

#[test]
fn numbering_stops_at_the_largest_identifier() {
    let data = empty();
    let parent = with_children(
        record("task", "p", NOON),
        vec![(1, record("task", "a", MORNING)), (2, record("task", "b", EVENING))],
    );
    let ((_, numbered), counter) = data.recursive_id((0, parent), i64::MAX - 1, &DAY);
    assert_eq!(counter, i64::MAX);
    assert_eq!(numbered.subtasks[0].1.daily_id, i64::MAX - 1);
    assert_eq!(numbered.subtasks[1].1.daily_id, i64::MAX);
}

#[test]
fn roots_of_the_day_are_numbered_from_one_without_gaps() {
    let mut data = empty();
    let dates = [NOON, YESTERDAY, MORNING, TOMORROW, EVENING, NOON, MORNING + 1];
    for (key, date) in dates.iter().enumerate() {
        data.content.push((key as i64, record("task", "r", *date)));
    }
    let data = data.calculate_ids_for(&DAY);
    let mut taken: Vec<i64> = ids(&data).into_iter().filter(|id| *id != 0).collect();
    taken.sort();
    assert_eq!(taken, vec![1, 2, 3, 4, 5]);
    assert_eq!(data.content[1].1.daily_id, 0);
    assert_eq!(data.content[3].1.daily_id, 0);
}

#[test]
fn numbering_twice_changes_nothing() {
    let mut data = empty();
    let child = with_children(
        record("task", "child", NOON),
        vec![(1, record("task", "grandchild", MORNING))],
    );
    data.content.push((0, with_children(record("task", "root", EVENING), vec![(1, child)])));
    data.content.push((1, record("note", "n", MORNING)));
    data.content.push((2, record("event", "e", YESTERDAY)));
    let once = data.calculate_ids_for(&DAY);
    let first = format!("{:?}", once);
    let twice = once.calculate_ids_for(&DAY);
    assert_eq!(first, format!("{:?}", twice));
}

#[test]
fn numbering_changes_nothing_but_identifiers() {
    let mut data = empty();
    let child = with_children(
        record("task", "child", NOON),
        vec![(1, record("task", "grandchild", MORNING))],
    );
    data.content.push((0, with_children(record("task", "root", EVENING), vec![(1, child)])));
    data.content.push((1, record("note", "n", MORNING)));
    let wipe = |data: &mut Data| {
        for root in data.content.iter_mut() {
            root.1.daily_id = 0;
            for child in root.1.subtasks.iter_mut() {
                child.1.daily_id = 0;
                for grandchild in child.1.subtasks.iter_mut() {
                    grandchild.1.daily_id = 0;
                }
            }
        }
    };
    let before = format!("{:?}", data);
    let mut data = data.calculate_ids_for(&DAY);
    assert_ne!(before, format!("{:?}", data));
    wipe(&mut data);
    assert_eq!(before, format!("{:?}", data));
}

#[test]
fn calculate_ids_numbers_what_was_added_just_now() {
    let mut data = empty();
    data.add_object(String::from("fresh"), String::from("task"));
    data.content.push((7, record("task", "old", 0)));
    data.content[0].1.daily_id = 0;
    let data = data.calculate_ids();
    assert_eq!(data.content[0].1.daily_id, 1);
    assert_eq!(data.content[1].1.daily_id, 0);
}

#[test]
fn today_covers_the_current_instant() {
    let before = Local::now().timestamp();
    let today = Day::today();
    let after = Local::now().timestamp();
    assert!(today.contains(before) || today.contains(after));
    assert!(today.last - today.first < 2 * 86_400);
}

#[test]
fn day_of_an_instant_runs_between_two_local_midnights() {
    let instant = Local.with_ymd_and_hms(2021, 6, 15, 13, 30, 0).unwrap().timestamp();
    let day = Day::of_instant(instant);
    let first = Local.with_ymd_and_hms(2021, 6, 15, 0, 0, 0).unwrap().timestamp();
    let next = Local.with_ymd_and_hms(2021, 6, 16, 0, 0, 0).unwrap().timestamp();
    assert_eq!(day, Day { first, last: next - 1 });
    assert!(day.contains(instant));
    assert!(!day.contains(next));
}

#[test]
fn day_of_an_instant_out_of_reach_is_that_instant() {
    assert_eq!(Day::of_instant(i64::MAX), Day { first: i64::MAX, last: i64::MAX });
    assert_eq!(Day::of_instant(i64::MIN), Day { first: i64::MIN, last: i64::MIN });
}

#[test]
fn day_between_midnights() {
    assert_eq!(Day::between(150, Some(100), Some(200)), Day { first: 100, last: 199 });
    assert_eq!(Day::between(100, Some(100), Some(200)), Day { first: 100, last: 199 });
    assert_eq!(Day::between(200, Some(100), Some(200)), Day { first: 200, last: 200 });
    assert_eq!(Day::between(99, Some(100), Some(200)), Day { first: 99, last: 99 });
    assert_eq!(Day::between(150, None, Some(200)), Day { first: 150, last: 150 });
    assert_eq!(Day::between(150, Some(100), None), Day { first: 150, last: 150 });
}

#[test]
fn migration_moves_open_tasks_only() {
    let mut data = empty();
    data.content.push((0, record("task", "open", YESTERDAY)));
    let mut done = record("task", "done", YESTERDAY);
    done.signifier = Signifier::Complete.value();
    data.content.push((1, done));
    data.content.push((2, record("note", "note", YESTERDAY)));
    data.content.push((3, record("event", "event", YESTERDAY)));
    data.content.push((
        4,
        with_children(record("note", "holder", YESTERDAY), vec![(1, record("task", "leaf", YESTERDAY))]),
    ));
    let data = data.migrate_objects_at(NOON);
    let dates: Vec<i64> = data.content.iter().map(|e| e.1.current_date).collect();
    assert_eq!(dates, vec![NOON, YESTERDAY, YESTERDAY, YESTERDAY, YESTERDAY]);
    assert_eq!(data.content[4].1.subtasks[0].1.current_date, YESTERDAY);
    assert_eq!(data.content[0].1.date_added, YESTERDAY);
}

#[test]
fn migration_leaves_what_is_nested_under_an_open_task() {
    let mut data = empty();
    data.content.push((
        0,
        with_children(record("task", "root", YESTERDAY), vec![(1, record("task", "leaf", YESTERDAY))]),
    ));
    let data = data.migrate_objects_at(NOON);
    assert_eq!(data.content[0].1.current_date, NOON);
    assert_eq!(data.content[0].1.subtasks[0].1.current_date, YESTERDAY);
}

#[test]
fn migrate_objects_moves_to_the_current_instant() {
    let mut data = empty();
    data.content.push((0, record("task", "open", YESTERDAY)));
    data.content.push((1, record("note", "note", YESTERDAY)));
    let before = Local::now().timestamp();
    let data = data.migrate_objects();
    let after = Local::now().timestamp();
    let moved = data.content[0].1.current_date;
    assert!(before <= moved && moved <= after);
    assert_eq!(data.content[1].1.current_date, YESTERDAY);
}

#[test]
fn completion_reaches_roots_and_their_children_only() {
    let mut data = empty();
    let mut grandchild = record("task", "grandchild", MORNING);
    grandchild.daily_id = 3;
    let mut child = with_children(record("task", "child", MORNING), vec![(1, grandchild)]);
    child.daily_id = 3;
    let mut other = record("note", "other child", MORNING);
    other.daily_id = 4;
    let mut root = with_children(record("event", "root", MORNING), vec![(1, child), (2, other)]);
    root.daily_id = 3;
    data.content.push((0, root));
    let mut second = record("task", "second", MORNING);
    second.daily_id = 5;
    data.content.push((1, second));
    let data = data.complete_object(3, String::from("daily")).unwrap();
    let done = Signifier::Complete.value();
    let root = &data.content[0].1;
    assert_eq!(root.signifier, done);
    assert_eq!(root.content_type, "event");
    assert_eq!(root.subtasks[0].1.signifier, done);
    assert_eq!(root.subtasks[1].1.signifier, Signifier::Note.value());
    assert_eq!(root.subtasks[0].1.subtasks[0].1.signifier, Signifier::Task.value());
    assert_eq!(data.content[1].1.signifier, Signifier::Task.value());
}

#[test]
fn completion_of_a_child_alone() {
    let mut data = empty();
    let mut child = record("task", "child", MORNING);
    child.daily_id = 2;
    let mut root = with_children(record("task", "root", MORNING), vec![(1, child)]);
    root.daily_id = 1;
    data.content.push((0, root));
    let data = data.complete_object(2, String::from("daily")).unwrap();
    assert_eq!(data.content[0].1.signifier, Signifier::Task.value());
    assert_eq!(data.content[0].1.subtasks[0].1.signifier, Signifier::Complete.value());
}

#[test]
fn completion_of_an_identifier_that_only_a_grandchild_has_is_refused() {
    let mut data = empty();
    let mut grandchild = record("task", "grandchild", MORNING);
    grandchild.daily_id = 3;
    let child = with_children(record("task", "child", MORNING), vec![(1, grandchild)]);
    data.content.push((0, with_children(record("task", "root", MORNING), vec![(1, child)])));
    assert!(matches!(
        data.complete_object(3, String::from("daily")),
        Err(BujoError::ReferenceNotFound)
    ));
}

#[test]
fn completion_by_another_kind_of_reference_does_nothing() {
    let mut data = empty();
    let mut root = record("task", "root", MORNING);
    root.daily_id = 1;
    data.content.push((1, root));
    let data = data.complete_object(1, String::from("key")).unwrap();
    assert_eq!(data.content[0].1.signifier, Signifier::Task.value());
}

#[test]
fn completed_task_is_not_migrated() {
    let mut data = empty();
    let mut root = record("task", "root", YESTERDAY);
    root.daily_id = 1;
    data.content.push((0, root));
    let data = data.complete_object(1, String::from("daily")).unwrap();
    let data = data.migrate_objects_at(NOON);
    assert_eq!(data.content[0].1.current_date, YESTERDAY);
}

#[test]
fn schedule_with_sets_the_day() {
    let mut data = empty();
    data.add_object_at(String::from("a"), String::from("task"), MORNING);
    data.add_object_at(String::from("b"), String::from("task"), MORNING);
    let data = data
        .schedule_with(2, String::from("daily"), String::from("20210615"), Some(1_623_700_800))
        .unwrap();
    assert_eq!(data.content[0].1.current_date, MORNING);
    assert_eq!(data.content[1].1.current_date, 1_623_700_800);
    assert_eq!(data.content[1].1.date_added, MORNING);
    let data = data
        .schedule_with(0, String::from("key"), String::from("19700101"), Some(-3_600))
        .unwrap();
    assert_eq!(data.content[0].1.current_date, -3_600);
}

#[test]
fn schedule_refuses_in_order() {
    let fresh = || {
        let mut data = empty();
        data.add_object_at(String::from("a"), String::from("task"), MORNING);
        data
    };
    let refused =
        fresh().schedule_with(9, String::from("daily"), String::from("nonsense"), Some(5));
    assert!(matches!(refused, Err(BujoError::ReferenceNotFound)));
    let refused =
        fresh().schedule_with(1, String::from("daily"), String::from("nonsense"), Some(5));
    assert!(matches!(refused, Err(BujoError::DateFormatInvalid)));
    let refused = fresh().schedule_with(1, String::from("daily"), String::from("20210615"), None);
    assert!(matches!(refused, Err(BujoError::DateFormatInvalid)));
    let refused = fresh().schedule_object(9, String::from("daily"), String::from("20210615"));
    assert!(matches!(refused, Err(BujoError::ReferenceNotFound)));
    let refused = fresh().schedule_object(1, String::from("daily"), String::from("2021-06-15"));
    assert!(matches!(refused, Err(BujoError::DateFormatInvalid)));
    let refused = fresh().schedule_object(1, String::from("daily"), String::from("20210631"));
    assert!(matches!(refused, Err(BujoError::DateFormatInvalid)));
}

#[test]
fn schedule_object_sets_the_local_midnight() {
    let mut data = empty();
    data.add_object_at(String::from("a"), String::from("task"), MORNING);
    let data = data.schedule_object(0, String::from("key"), String::from("20210615")).unwrap();
    let midnight = Local.with_ymd_and_hms(2021, 6, 15, 0, 0, 0).unwrap().timestamp();
    assert_eq!(data.content[0].1.current_date, midnight);
    let data = data.schedule_object(0, String::from("key"), String::from("19991231")).unwrap();
    let midnight = Local.with_ymd_and_hms(1999, 12, 31, 0, 0, 0).unwrap().timestamp();
    assert_eq!(data.content[0].1.current_date, midnight);
}

#[test]
fn journal_from_first_record_to_schedule() {
    let now = Local::now().timestamp();
    let today = Day::of_instant(now);
    let mut data = empty();
    let key = data.add_object_at(String::from("Buy milk"), String::from("task"), now);
    assert_eq!(key, 0);
    assert_eq!(data.content[0].1.signifier, Signifier::Task.value());
    assert_eq!(data.content[0].1.daily_id, 1);
    let key = data.add_object_at(String::from("Meeting notes"), String::from("note"), now);
    assert_eq!(key, 1);
    assert_eq!(data.content[1].1.daily_id, 2);
    let data = data.calculate_ids_for(&today);
    assert_eq!(ids(&data), vec![1, 2]);
    let data = data.complete_object(1, String::from("daily")).unwrap();
    assert_eq!(data.content[0].1.signifier, Signifier::Complete.value());
    assert_eq!(data.content[1].1.signifier, Signifier::Note.value());
    let data = data.schedule_object(2, String::from("daily"), String::from("20991231")).unwrap();
    let midnight = Local.with_ymd_and_hms(2099, 12, 31, 0, 0, 0).unwrap().timestamp();
    assert_eq!(data.content[1].0, 1);
    assert_eq!(data.content[1].1.current_date, midnight);
    let data = data.calculate_ids_for(&today);
    assert_eq!(data.content[1].1.daily_id, 0);
    assert_ne!(data.content[0].1.daily_id, 0);
}

#[test]
fn copy_of_a_record_is_the_record() {
    let mut child = with_children(
        record("note", "child", NOON),
        vec![(4, record("event", "grandchild", MORNING))],
    );
    child.daily_id = 9;
    let root = with_children(record("task", "root", EVENING), vec![(2, child)]);
    let twin = root.copy();
    assert_eq!(format!("{:?}", twin), format!("{:?}", root));
}
