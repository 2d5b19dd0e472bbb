//! What the journal shows: the rows of the list of all records and of the
//! view of one day, in the order and with the spacing in which they are
//! printed.

use crate::calendar::Day;
use crate::data::Data;
use crate::order::{ascending_order, numbers, positions, sorted_positions, visiting_order};
use crate::record::{
    dates_of, entries_view, keys_of, largest, lemma_entries_view, BujoObject, RecordView,
};
use vstd::prelude::*;
use vstd::utf8::encode_utf8;

verus! {

/// One printed line: `blanks` spaces, the identifier, the divider, and
/// then, for a root record, the signifier and the text; for a nested
/// record, `indent` spaces stand between the divider and the signifier.
#[derive(Debug)]
pub struct Row {
    /// The spaces in front of the identifier.
    pub blanks: usize,
    /// The stable key or the daily identifier that the row is printed under.
    pub id: i64,
    /// Whether the row is that of a nested record.
    pub nested: bool,
    /// For a nested record, the width in bytes of the signifier of its
    /// parent; 0 for a root record.
    pub indent: usize,
    /// The signifier of the record.
    pub signifier: String,
    /// The text of the record.
    pub content: String,
}

/// What a row is, as plain mathematical values.
pub struct RowView {
    pub blanks: nat,
    pub id: int,
    pub nested: bool,
    pub indent: nat,
    pub signifier: Seq<char>,
    pub content: Seq<char>,
}

impl View for Row {
    type V = RowView;

    open spec fn view(&self) -> RowView {
        RowView {
            blanks: self.blanks as nat,
            id: self.id as int,
            nested: self.nested,
            indent: self.indent as nat,
            signifier: self.signifier@,
            content: self.content@,
        }
    }
}

/// The views of a sequence of rows, in order.
pub open spec fn rows_view(rows: Seq<Row>) -> Seq<RowView> {
    Seq::new(rows.len(), |i: int| rows[i]@)
}

/// The number of decimal digits of `n`.
pub open spec fn digits(n: nat) -> nat
    decreases n,
{
    if n < 10 {
        1
    } else {
        1 + digits(n / 10)
    }
}

/// The number of characters of `x` written in decimal, with its sign where
/// it is negative.
pub open spec fn decimal_width(x: int) -> nat {
    if x < 0 {
        1 + digits((-x) as nat)
    } else {
        digits(x as nat)
    }
}

/// The spaces in front of the identifier `x` in a column `width` characters
/// wide: what the identifier leaves free, and none where it is wider than
/// the column.
pub open spec fn gap(width: nat, x: int) -> nat {
    if decimal_width(x) <= width {
        (width - decimal_width(x)) as nat
    } else {
        0
    }
}

/// The row of a root record in the list of all records: under its stable
/// key.
pub open spec fn key_row(entry: (int, RecordView), width: nat) -> RowView {
    RowView {
        blanks: gap(width, entry.0),
        id: entry.0,
        nested: false,
        indent: 0,
        signifier: entry.1.signifier,
        content: entry.1.content,
    }
}

/// The row of a record in the view of a day: under its daily identifier.
/// `parent` holds the signifier of the record that it is nested under, and
/// is `None` for a root record.
pub open spec fn daily_row(record: RecordView, blanks: nat, parent: Option<Seq<char>>) -> RowView {
    RowView {
        blanks,
        id: record.daily_id,
        nested: parent is Some,
        indent: match parent {
            Some(signifier) => encode_utf8(signifier).len(),
            None => 0,
        },
        signifier: record.signifier,
        content: record.content,
    }
}

/// The first `k` rows of the list of all records.
pub open spec fn key_rows_upto(
    entries: Seq<(int, RecordView)>,
    order: Seq<int>,
    k: nat,
    width: nat,
) -> Seq<RowView>
    decreases k,
{
    if k == 0 {
        Seq::empty()
    } else {
        key_rows_upto(entries, order, (k - 1) as nat, width).push(
            key_row(entries[order[k - 1]], width),
        )
    }
}

/// The list of all records: one row for each root record, by ascending
/// day, records of the same instant in the order in which they stand.
pub open spec fn key_rows(entries: Seq<(int, RecordView)>, width: nat) -> Seq<RowView> {
    key_rows_upto(entries, ascending_order(dates_of(entries)), entries.len(), width)
}

/// The positions among the first `k` of `entries` whose record is itself
/// shown under the day `today`, in ascending order.
pub open spec fn shown_upto(entries: Seq<(int, RecordView)>, k: nat, today: Day) -> Seq<int>
    decreases k,
{
    if k == 0 {
        Seq::empty()
    } else {
        let before = shown_upto(entries, (k - 1) as nat, today);
        if today.covers(entries[k - 1].1.current_date) {
            before.push(k - 1)
        } else {
            before
        }
    }
}

/// The positions of `entries` whose record is itself shown under the day
/// `today`, in ascending order.
pub open spec fn shown(entries: Seq<(int, RecordView)>, today: Day) -> Seq<int> {
    shown_upto(entries, entries.len(), today)
}

/// The daily identifiers of the records at the positions `places`.
pub open spec fn ids_at(entries: Seq<(int, RecordView)>, places: Seq<int>) -> Seq<int> {
    Seq::new(places.len(), |i: int| entries[places[i]].1.daily_id)
}

/// The rows of what is nested under `record` in the view of the day: the
/// nested records that are themselves shown under `today`, by ascending
/// daily identifier, each followed by the rows of what is nested under it.
/// Every row has `blanks` spaces in front and is indented by the width in
/// bytes of the signifier of its parent.
pub open spec fn nested_rows(record: RecordView, blanks: nat, today: Day) -> Seq<RowView>
    decreases record, 1nat, 0nat,
{
    let places = shown(record.subtasks, today);
    nested_rows_upto(
        record,
        places,
        ascending_order(ids_at(record.subtasks, places)),
        places.len(),
        blanks,
        today,
    )
}

/// The rows of the first `k` nested records of `record` that the view of
/// the day visits.
pub open spec fn nested_rows_upto(
    record: RecordView,
    places: Seq<int>,
    order: Seq<int>,
    k: nat,
    blanks: nat,
    today: Day,
) -> Seq<RowView>
    decreases record, 0nat, k,
{
    if k == 0 {
        Seq::empty()
    } else {
        let before = nested_rows_upto(record, places, order, (k - 1) as nat, blanks, today);
        let at = places[order[k - 1]];
        if 0 <= at < record.subtasks.len() {
            let child = record.subtasks[at].1;
            before.push(daily_row(child, blanks, Some(record.signifier)))
                + nested_rows(child, blanks, today)
        } else {
            before
        }
    }
}

/// The rows of the first `k` root records that the view of the day visits.
pub open spec fn daily_rows_upto(
    entries: Seq<(int, RecordView)>,
    places: Seq<int>,
    order: Seq<int>,
    k: nat,
    width: nat,
    today: Day,
) -> Seq<RowView>
    decreases k,
{
    if k == 0 {
        Seq::empty()
    } else {
        let before = daily_rows_upto(entries, places, order, (k - 1) as nat, width, today);
        let root = entries[places[order[k - 1]]].1;
        let blanks = gap(width, root.daily_id);
        before.push(daily_row(root, blanks, None)) + nested_rows(root, blanks, today)
    }
}

/// The view of the day `today`: the root records shown under it, by
/// ascending daily identifier, each followed by the rows of what is nested
/// under it.
pub open spec fn daily_rows(entries: Seq<(int, RecordView)>, width: nat, today: Day) -> Seq<
    RowView,
> {
    let places = shown(entries, today);
    daily_rows_upto(
        entries,
        places,
        ascending_order(ids_at(entries, places)),
        places.len(),
        width,
        today,
    )
}

/// The power of ten with `k` zeros.
pub open spec fn ten_to(k: nat) -> nat
    decreases k,
{
    if k == 0 {
        1
    } else {
        10 * ten_to((k - 1) as nat)
    }
}

/// A number below the power of ten with `k` zeros has at most `k` digits.
pub proof fn lemma_digits_bound(n: nat, k: nat)
    requires
        k >= 1,
        n < ten_to(k),
    ensures
        1 <= digits(n) <= k,
    decreases k,
{
    reveal_with_fuel(ten_to, 2);
    if n >= 10 {
        lemma_digits_bound(n / 10, (k - 1) as nat);
    }
}

/// Returns the number of characters of `x` written in decimal.
pub fn width_of(x: i64) -> (w: usize)
    ensures
        w == decimal_width(x as int),
        1 <= w <= 20,
{
    let mut rest: u64 = if x >= 0 {
        x as u64
    } else {
        (-(x + 1)) as u64 + 1
    };
    let mut w: usize = if x < 0 {
        2
    } else {
        1
    };
    let ghost whole = rest as nat;
    let ghost sign: nat = if x < 0 {
        1
    } else {
        0
    };
    proof {
        assert(ten_to(19) == 10_000_000_000_000_000_000nat) by {
            reveal_with_fuel(ten_to, 20);
        }
        lemma_digits_bound(whole, 19);
    }
    while rest >= 10
        invariant
            w + digits(rest as nat) == 1 + sign + digits(whole),
            digits(whole) <= 19,
            sign <= 1,
        decreases rest,
    {
        rest = rest / 10;
        w = w + 1;
    }
    w
}

/// Returns the spaces in front of the identifier `x` in a column `width`
/// characters wide.
pub fn gap_of(width: usize, x: i64) -> (g: usize)
    ensures
        g == gap(width as nat, x as int),
{
    let w = width_of(x);
    if w <= width {
        width - w
    } else {
        0
    }
}

/// Makes the row of `record` under the identifier `id`.
fn row_of(id: i64, record: &BujoObject, blanks: usize, nested: bool, indent: usize) -> (row: Row)
    ensures
        row@ == (RowView {
            blanks: blanks as nat,
            id: id as int,
            nested,
            indent: indent as nat,
            signifier: record@.signifier,
            content: record@.content,
        }),
{
    Row {
        blanks,
        id,
        nested,
        indent,
        signifier: record.signifier.clone(),
        content: record.content.clone(),
    }
}

/// Lists the positions of `entries` whose record is itself shown under
/// `today`.
fn shown_places(entries: &Vec<(i64, BujoObject)>, today: &Day) -> (places: Vec<usize>)
    ensures
        positions(places@) == shown(entries_view(entries@), *today),
        forall|j: int| 0 <= j < places@.len() ==> #[trigger] places@[j] < entries@.len(),
{
    let ghost view = entries_view(entries@);
    let n = entries.len();
    let mut places: Vec<usize> = Vec::new();
    let mut i: usize = 0;
    proof {
        lemma_entries_view(entries@);
        assert(positions(places@) =~= shown_upto(view, 0, *today));
    }
    while i < n
        invariant
            i <= n,
            n == entries@.len(),
            view == entries_view(entries@),
            view.len() == n,
            forall|j: int| 0 <= j < n ==> (#[trigger] view[j]).1 == entries@[j].1@,
            positions(places@) == shown_upto(view, i as nat, *today),
            forall|j: int| 0 <= j < places@.len() ==> #[trigger] places@[j] < i,
        decreases n - i,
    {
        let ghost before = positions(places@);
        assert(view[i as int].1 == entries@[i as int].1@);
        if today.contains(entries[i].1.current_date) {
            places.push(i);
            assert(positions(places@) =~= before.push(i as int));
        }
        i += 1;
    }
    places
}

/// Lists the daily identifiers of the records at the positions `places`.
fn ids_of(entries: &Vec<(i64, BujoObject)>, places: &Vec<usize>) -> (ids: Vec<i64>)
    requires
        forall|j: int| 0 <= j < places@.len() ==> #[trigger] places@[j] < entries@.len(),
    ensures
        numbers(ids@) == ids_at(entries_view(entries@), positions(places@)),
        ids@.len() == places@.len(),
{
    let n = places.len();
    let mut ids: Vec<i64> = Vec::new();
    let mut i: usize = 0;
    while i < n
        invariant
            i <= n,
            n == places@.len(),
            ids@.len() == i,
            forall|j: int| 0 <= j < places@.len() ==> #[trigger] places@[j] < entries@.len(),
            forall|j: int| 0 <= j < i ==> #[trigger] ids@[j] == entries@[places@[j] as int].1.daily_id,
        decreases n - i,
    {
        ids.push(entries[places[i]].1.daily_id);
        i += 1;
    }
    proof {
        lemma_entries_view(entries@);
        let view = entries_view(entries@);
        let at = positions(places@);
        assert forall|j: int| 0 <= j < n implies numbers(ids@)[j] == ids_at(view, at)[j] by {
            assert(at[j] == places@[j]);
            assert(view[places@[j] as int].1 == entries@[places@[j] as int].1@);
        }
        assert(numbers(ids@) =~= ids_at(view, at));
    }
    ids
}

/// Appends to `rows` the rows of what is nested under `record` in the view
/// of the day `today`.
pub fn push_nested(record: &BujoObject, blanks: usize, today: &Day, rows: &mut Vec<Row>)
    ensures
        rows_view(final(rows)@) == rows_view(old(rows)@) + nested_rows(
            record@,
            blanks as nat,
            *today,
        ),
    decreases record,
{
    let places = shown_places(&record.subtasks, today);
    let ids = ids_of(&record.subtasks, &places);
    let order = sorted_positions(&ids);
    let indent = record.signifier.as_str().as_bytes().len();
    let ghost nested = record@.subtasks;
    let ghost at = positions(places@);
    let ghost steps = positions(order@);
    let ghost start = rows_view(rows@);
    let n = order.len();
    let mut k: usize = 0;
    proof {
        lemma_entries_view(record.subtasks@);
        assert(rows_view(rows@) =~= start + nested_rows_upto(
            record@,
            at,
            steps,
            0,
            blanks as nat,
            *today,
        ));
    }
    while k < n
        invariant
            k <= n,
            n == order@.len(),
            n == places@.len(),
            nested == record@.subtasks,
            nested == entries_view(record.subtasks@),
            nested.len() == record.subtasks@.len(),
            at == positions(places@),
            steps == positions(order@),
            at == shown(nested, *today),
            steps == ascending_order(ids_at(nested, at)),
            indent == encode_utf8(record@.signifier).len(),
            forall|j: int| 0 <= j < order@.len() ==> 0 <= #[trigger] order@[j] < places@.len(),
            forall|j: int| 0 <= j < places@.len() ==> #[trigger] places@[j] < record.subtasks@.len(),
            forall|j: int|
                0 <= j < nested.len() ==> (#[trigger] nested[j]).1 == record.subtasks@[j].1@,
            rows_view(rows@) == start + nested_rows_upto(
                record@,
                at,
                steps,
                k as nat,
                blanks as nat,
                *today,
            ),
        decreases n - k,
    {
        let place = places[order[k]];
        let child = &record.subtasks[place].1;
        let ghost before = rows_view(rows@);
        let ghost so_far = nested_rows_upto(record@, at, steps, k as nat, blanks as nat, *today);
        proof {
            assert(steps[k as int] == order@[k as int]);
            assert(at[steps[k as int]] == place);
            assert(nested[place as int].1 == child@);
        }
        rows.push(row_of(child.daily_id, child, blanks, true, indent));
        let ghost pushed = rows_view(rows@);
        proof {
            assert(pushed =~= before.push(daily_row(child@, blanks as nat, Some(record@.signifier))));
        }
        push_nested(child, blanks, today, rows);
        proof {
            let under = nested_rows(child@, blanks as nat, *today);
            assert(nested_rows_upto(record@, at, steps, (k + 1) as nat, blanks as nat, *today)
                == so_far.push(daily_row(child@, blanks as nat, Some(record@.signifier))) + under);
            assert(rows_view(rows@) =~= start + (so_far.push(
                daily_row(child@, blanks as nat, Some(record@.signifier)),
            ) + under));
        }
        k += 1;
    }
}

/// What prints the journal: the journal itself and the measures of the
/// page.
#[derive(Debug)]
pub struct Printer {
    /// The journal, numbered for the day on which it is printed.
    pub data: Data,
    /// The width of the column of identifiers.
    pub max_id_width: usize,
    /// The width of the terminal, in characters.
    pub terminal_width: u16,
    /// The height of the terminal, in lines.
    pub terminal_height: u16,
    /// The colour of the dividers.
    pub border_color: u8,
    /// The number of characters between the divider and the right edge.
    pub div_to_end: usize,
}

/// The width of the column of identifiers: that of the largest stable key,
/// and 1 in an empty journal.
pub open spec fn column_width(entries: Seq<(int, RecordView)>) -> nat {
    if entries.len() == 0 {
        1
    } else {
        decimal_width(largest(keys_of(entries)))
    }
}

impl Printer {
    /// Makes the printer of `data` for a terminal of the given measures.
    ///
    /// The column of identifiers is as wide as the largest stable key. What
    /// is right of the divider takes the rest of the terminal but for two
    /// characters, and nothing where the terminal is narrower than that.
    pub fn new(data: Data, terminal_width: u16, terminal_height: u16) -> (printer: Printer)
        ensures
            printer.data == data,
            printer.max_id_width == column_width(data@.content),
            printer.terminal_width == terminal_width,
            printer.terminal_height == terminal_height,
            printer.border_color == 240,
            printer.div_to_end == if terminal_width >= column_width(data@.content) + 2 {
                terminal_width - column_width(data@.content) - 2
            } else {
                0
            },
    {
        let max_id_width = if data.content.len() == 0 {
            1
        } else {
            width_of(data.get_max_key())
        };
        proof {
            lemma_entries_view(data.content@);
        }
        let width = terminal_width as usize;
        let div_to_end = if width >= max_id_width + 2 {
            width - max_id_width - 2
        } else {
            0
        };
        Printer {
            data,
            max_id_width,
            terminal_width,
            terminal_height,
            border_color: 240,
            div_to_end,
        }
    }

    /// Returns the rows of the list of all records: every root record under
    /// its stable key, by ascending day.
    pub fn all(&self) -> (rows: Vec<Row>)
        ensures
            rows_view(rows@) == key_rows(self.data@.content, self.max_id_width as nat),
    {
        let entries = &self.data.content;
        let order = visiting_order(entries);
        let ghost view = entries_view(entries@);
        let ghost steps = positions(order@);
        let mut rows: Vec<Row> = Vec::new();
        let n = order.len();
        let mut k: usize = 0;
        proof {
            lemma_entries_view(entries@);
            assert(rows_view(rows@) =~= key_rows_upto(view, steps, 0, self.max_id_width as nat));
        }
        while k < n
            invariant
                k <= n,
                n == order@.len(),
                n == entries@.len(),
                entries == &self.data.content,
                view == entries_view(entries@),
                steps == positions(order@),
                forall|j: int| 0 <= j < order@.len() ==> 0 <= #[trigger] order@[j] < entries@.len(),
                forall|j: int|
                    0 <= j < n ==> (#[trigger] view[j]) == (entries@[j].0 as int, entries@[j].1@),
                rows_view(rows@) == key_rows_upto(view, steps, k as nat, self.max_id_width as nat),
            decreases n - k,
        {
            let place = order[k];
            let key = entries[place].0;
            let ghost before = rows_view(rows@);
            proof {
                assert(steps[k as int] == place);
                assert(view[place as int] == (entries@[place as int].0 as int, entries@[place as int].1@));
            }
            rows.push(row_of(key, &entries[place].1, gap_of(self.max_id_width, key), false, 0));
            proof {
                assert(rows_view(rows@) =~= before.push(
                    key_row(view[place as int], self.max_id_width as nat),
                ));
            }
            k += 1;
        }
        rows
    }

    /// Returns the order in which the list of the records with all their
    /// fields is printed: the positions of the root records by ascending day.
    pub fn raw(&self) -> (order: Vec<usize>)
        ensures
            positions(order@) == ascending_order(dates_of(self.data@.content)),
            order@.len() == self.data.content@.len(),
            forall|j: int|
                0 <= j < order@.len() ==> 0 <= #[trigger] order@[j] < self.data.content@.len(),
    {
        visiting_order(&self.data.content)
    }

    /// Returns the rows of the view of the day `today`: the root records
    /// shown under it, by ascending daily identifier, each followed by the
    /// records nested under it that are themselves shown under it, at every
    /// depth.
    pub fn daily_for(&self, today: &Day) -> (rows: Vec<Row>)
        ensures
            rows_view(rows@) == daily_rows(self.data@.content, self.max_id_width as nat, *today),
    {
        let entries = &self.data.content;
        let places = shown_places(entries, today);
        let ids = ids_of(entries, &places);
        let order = sorted_positions(&ids);
        let ghost view = entries_view(entries@);
        let ghost at = positions(places@);
        let ghost steps = positions(order@);
        let ghost width = self.max_id_width as nat;
        let mut rows: Vec<Row> = Vec::new();
        let n = order.len();
        let mut k: usize = 0;
        proof {
            lemma_entries_view(entries@);
            assert(rows_view(rows@) =~= daily_rows_upto(view, at, steps, 0, width, *today));
        }
        while k < n
            invariant
                k <= n,
                n == order@.len(),
                n == places@.len(),
                entries == &self.data.content,
                view == entries_view(entries@),
                width == self.max_id_width as nat,
                at == positions(places@),
                steps == positions(order@),
                forall|j: int| 0 <= j < order@.len() ==> 0 <= #[trigger] order@[j] < places@.len(),
                forall|j: int| 0 <= j < places@.len() ==> #[trigger] places@[j] < entries@.len(),
                forall|j: int|
                    0 <= j < entries@.len() ==> (#[trigger] view[j]).1 == entries@[j].1@,
                rows_view(rows@) == daily_rows_upto(view, at, steps, k as nat, width, *today),
            decreases n - k,
        {
            let place = places[order[k]];
            let root = &entries[place].1;
            let blanks = gap_of(self.max_id_width, root.daily_id);
            let ghost before = rows_view(rows@);
            proof {
                assert(steps[k as int] == order@[k as int]);
                assert(at[steps[k as int]] == place);
                assert(view[place as int].1 == root@);
            }
            rows.push(row_of(root.daily_id, root, blanks, false, 0));
            proof {
                assert(rows_view(rows@) =~= before.push(daily_row(root@, blanks as nat, None)));
            }
            push_nested(root, blanks, today, &mut rows);
            k += 1;
        }
        rows
    }

    /// Returns the rows of the view of the current day of the local
    /// calendar.
    pub fn daily(&self) -> (rows: Vec<Row>)
        ensures
            exists|today: Day|
                rows_view(rows@) == #[trigger] daily_rows(
                    self.data@.content,
                    self.max_id_width as nat,
                    today,
                ),
    {
        let today = Day::today();
        self.daily_for(&today)
    }
}

} // verus!
