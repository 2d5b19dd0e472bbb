use bujo::display::{gap_of, width_of, Printer, Row};
use bujo::{BujoObject, Data, Day, Signifier};
use std::path::PathBuf;

const DAY: Day = Day { first: 86_400, last: 172_799 };
const YESTERDAY: i64 = 50_000;
const MORNING: i64 = 90_000;
const NOON: i64 = 130_000;
const EVENING: i64 = 170_000;

fn entry(sign: Signifier, text: &str, date: i64, daily_id: i64) -> BujoObject {
    BujoObject {
        content_type: sign.kind_name(),
        content: String::from(text),
        signifier: sign.value(),
        current_date: date,
        date_added: date,
        daily_id,
        subtasks: Vec::new(),
    }
}

fn journal(content: Vec<(i64, BujoObject)>) -> Data {
    let path: PathBuf = ["./"].iter().collect();
    let mut data = Data::new(&path);
    data.content = content;
    data
}

fn brief(rows: &[Row]) -> Vec<(usize, i64, bool, usize, String)> {
    rows.iter().map(|r| (r.blanks, r.id, r.nested, r.indent, r.content.clone())).collect()
}

#[test]
fn widths_of_numbers() {
    assert_eq!(width_of(0), 1);
    assert_eq!(width_of(9), 1);
    assert_eq!(width_of(10), 2);
    assert_eq!(width_of(99), 2);
    assert_eq!(width_of(100), 3);
    assert_eq!(width_of(-1), 2);
    assert_eq!(width_of(-10), 3);
    assert_eq!(width_of(i64::MAX), 19);
    assert_eq!(width_of(i64::MIN), 20);
    for x in [0i64, 7, 10, 12345, -5, -999, i64::MAX, i64::MIN, i64::MIN + 1] {
        assert_eq!(width_of(x), x.to_string().len());
    }
}

#[test]
fn gaps_in_front_of_numbers() {
    assert_eq!(gap_of(3, 7), 2);
    assert_eq!(gap_of(3, 42), 1);
    assert_eq!(gap_of(3, 123), 0);
    assert_eq!(gap_of(3, 1234), 0);
    assert_eq!(gap_of(3, -7), 1);
    assert_eq!(gap_of(0, 0), 0);
}

#[test]
fn printer_measures_the_page() {
    let printer = Printer::new(journal(Vec::new()), 80, 24);
    assert_eq!(printer.max_id_width, 1);
    assert_eq!(printer.terminal_width, 80);
    assert_eq!(printer.terminal_height, 24);
    assert_eq!(printer.border_color, 240);
    assert_eq!(printer.div_to_end, 77);
    let data = journal(vec![
        (3, entry(Signifier::Task, "a", MORNING, 0)),
        (120, entry(Signifier::Task, "b", MORNING, 0)),
        (7, entry(Signifier::Task, "c", MORNING, 0)),
    ]);
    let printer = Printer::new(data, 80, 24);
    assert_eq!(printer.max_id_width, 3);
    assert_eq!(printer.div_to_end, 75);
    assert_eq!(printer.data.content.len(), 3);
    let printer = Printer::new(journal(Vec::new()), 2, 24);
    assert_eq!(printer.div_to_end, 0);
    let printer = Printer::new(journal(Vec::new()), 3, 24);
    assert_eq!(printer.div_to_end, 0);
    let printer = Printer::new(journal(Vec::new()), 4, 24);
    assert_eq!(printer.div_to_end, 1);
}

#[test]
fn all_lists_every_root_by_day() {
    let mut holder = entry(Signifier::Note, "holder", NOON, 0);
    holder.subtasks.push((1, entry(Signifier::Task, "hidden", NOON, 0)));
    let data = journal(vec![
        (10, entry(Signifier::Task, "late", EVENING, 0)),
        (2, holder),
        (300, entry(Signifier::Event, "old", YESTERDAY, 0)),
        (4, entry(Signifier::Task, "noon too", NOON, 0)),
    ]);
    let printer = Printer::new(data, 80, 24);
    let rows = printer.all();
    assert_eq!(
        brief(&rows),
        vec![
            (0, 300, false, 0, String::from("old")),
            (2, 2, false, 0, String::from("holder")),
            (2, 4, false, 0, String::from("noon too")),
            (1, 10, false, 0, String::from("late")),
        ]
    );
    assert_eq!(rows[0].signifier, Signifier::Event.value());
    assert_eq!(rows[1].signifier, Signifier::Note.value());
    assert_eq!(printer.raw(), vec![2, 1, 3, 0]);
}

#[test]
fn daily_lists_the_day_by_identifier() {
    let mut root = entry(Signifier::Task, "root", NOON, 2);
    let mut child = entry(Signifier::Event, "child", MORNING, 4);
    child.subtasks.push((1, entry(Signifier::Note, "grandchild", EVENING, 5)));
    child.subtasks.push((2, entry(Signifier::Note, "not today", YESTERDAY, 0)));
    root.subtasks.push((1, entry(Signifier::Task, "second child", NOON, 6)));
    root.subtasks.push((2, child));
    root.subtasks.push((3, entry(Signifier::Task, "gone", YESTERDAY, 3)));
    let data = journal(vec![
        (0, entry(Signifier::Task, "twelfth", EVENING, 12)),
        (1, root),
        (2, entry(Signifier::Note, "first", MORNING, 1)),
        (3, entry(Signifier::Task, "yesterday", YESTERDAY, 0)),
    ]);
    let printer = Printer::new(data, 80, 24);
    assert_eq!(printer.max_id_width, 1);
    let rows = printer.daily_for(&DAY);
    assert_eq!(
        brief(&rows),
        vec![
            (0, 1, false, 0, String::from("first")),
            (0, 2, false, 0, String::from("root")),
            (0, 4, true, 2, String::from("child")),
            (0, 5, true, 3, String::from("grandchild")),
            (0, 6, true, 2, String::from("second child")),
            (0, 12, false, 0, String::from("twelfth")),
        ]
    );
}

#[test]
fn daily_keeps_the_blanks_of_the_root() {
    let mut root = entry(Signifier::Note, "root", NOON, 5);
    root.subtasks.push((1, entry(Signifier::Task, "child", NOON, 16)));
    let data = journal(vec![(1234, root)]);
    let printer = Printer::new(data, 80, 24);
    let rows = printer.daily_for(&DAY);
    assert_eq!(
        brief(&rows),
        vec![(3, 5, false, 0, String::from("root")), (3, 16, true, 1, String::from("child"))]
    );
}

#[test]
fn daily_of_another_day_is_empty() {
    let data = journal(vec![(0, entry(Signifier::Task, "a", YESTERDAY, 1))]);
    let printer = Printer::new(data, 80, 24);
    assert!(printer.daily_for(&DAY).is_empty());
    assert!(printer.daily().is_empty());
}
