//! What holds of the journal whatever it contains.

use crate::calendar::Day;
use crate::data::{fresh_record, DataView};
use crate::numbering::{
    belongs, lemma_numbered_upto, next_id, numbered_entries, numbered_record, numbered_upto,
};
use crate::order::{ascending_order, is_arrangement, is_stably_sorted, lemma_ascending_order};
use crate::record::{
    dates_of, keys_of, lemma_largest, nested_keys_unique, well_formed, RecordView,
};
use crate::signifier::Signifier;
use crate::transitions::{is_open_task, marked_entries};
use vstd::prelude::*;
use vstd::relations::injective_on;
use vstd::set_lib::{lemma_int_range, lemma_len_subset, lemma_map_size, set_int_range};

verus! {

/// A record with every daily identifier, its own and those nested under
/// it, set to 0.
pub open spec fn without_ids(record: RecordView) -> RecordView
    decreases record,
{
    RecordView { daily_id: 0, subtasks: entries_without_ids(record.subtasks), ..record }
}

/// The records of one level with every daily identifier set to 0.
pub open spec fn entries_without_ids(entries: Seq<(int, RecordView)>) -> Seq<(int, RecordView)>
    decreases entries,
{
    Seq::new(
        entries.len(),
        |i: int|
            if 0 <= i < entries.len() {
                (entries[i].0, without_ids(entries[i].1))
            } else {
                arbitrary()
            },
    )
}

/// Numbering one level keeps the number of records, and for each record
/// its key, the day under which it is shown and whether it belongs to the
/// day.
pub proof fn lemma_numbering_keeps_shape(
    entries: Seq<(int, RecordView)>,
    parent: Option<int>,
    c: int,
    today: Day,
)
    ensures
        numbered_entries(entries, parent, c, today).0.len() == entries.len(),
        forall|i: int|
            0 <= i < entries.len() ==> {
                let after = #[trigger] numbered_entries(entries, parent, c, today).0[i];
                &&& after.0 == entries[i].0
                &&& after.1.current_date == entries[i].1.current_date
                &&& belongs(parent, after.1, today) == belongs(parent, entries[i].1, today)
            },
        dates_of(numbered_entries(entries, parent, c, today).0) == dates_of(entries),
{
    let order = ascending_order(dates_of(entries));
    lemma_ascending_order(dates_of(entries));
    lemma_numbered_upto(entries, order, entries.len(), parent, c, today);
    let after = numbered_entries(entries, parent, c, today).0;
    assert forall|i: int| 0 <= i < entries.len() implies {
        &&& (#[trigger] after[i]).0 == entries[i].0
        &&& after[i].1.current_date == entries[i].1.current_date
        &&& belongs(parent, after[i].1, today) == belongs(parent, entries[i].1, today)
    } by {
        assert(order.contains(i));
        let j = choose|j: int| 0 <= j < order.len() && order[j] == i;
        assert(after[order[j]].0 == entries[order[j]].0);
    }
    assert(dates_of(after) =~= dates_of(entries));
}

/// Numbering a record changes nothing but daily identifiers.
pub proof fn lemma_numbered_record_keeps_rest(record: RecordView, member: bool, c: int, today: Day)
    ensures
        without_ids(numbered_record(record, member, c, today).0) == without_ids(record),
    decreases record, 0nat,
{
    lemma_numbered_entries_keep_rest(
        record.subtasks,
        Some(record.current_date),
        if member {
            next_id(c)
        } else {
            c
        },
        today,
    );
}

/// Numbering the records of one level changes nothing but daily
/// identifiers.
pub proof fn lemma_numbered_entries_keep_rest(
    entries: Seq<(int, RecordView)>,
    parent: Option<int>,
    c: int,
    today: Day,
)
    ensures
        entries_without_ids(numbered_entries(entries, parent, c, today).0) == entries_without_ids(
            entries,
        ),
    decreases entries, 1nat,
{
    let order = ascending_order(dates_of(entries));
    lemma_ascending_order(dates_of(entries));
    lemma_numbered_upto(entries, order, entries.len(), parent, c, today);
    let after = numbered_entries(entries, parent, c, today).0;
    assert forall|i: int| 0 <= i < entries.len() implies entries_without_ids(after)[i]
        == entries_without_ids(entries)[i] by {
        assert(order.contains(i));
        let j = choose|j: int| 0 <= j < order.len() && order[j] == i;
        assert(after[order[j]].0 == entries[order[j]].0);
        lemma_numbered_record_keeps_rest(
            entries[i].1,
            belongs(parent, entries[i].1, today),
            numbered_upto(entries, order, j as nat, parent, c, today).1,
            today,
        );
    }
    assert(entries_without_ids(after) =~= entries_without_ids(entries));
}

/// Numbering the journal changes nothing but daily identifiers: the text,
/// the kind, the signifier and the two dates of every record at every depth
/// stay as they were, and so do the keys and the order of the records.
pub proof fn lemma_numbering_keeps_records(journal: DataView, today: Day)
    ensures
        entries_without_ids(journal.numbered(today).content) == entries_without_ids(
            journal.content,
        ),
        journal.numbered(today).data_dir == journal.data_dir,
{
    lemma_numbered_entries_keep_rest(journal.content, None, 1, today);
}

/// Numbering a record that has just been numbered, from the same counter,
/// gives the same record and the same counter again.
pub proof fn lemma_numbered_record_twice(record: RecordView, member: bool, c: int, today: Day)
    ensures
        numbered_record(numbered_record(record, member, c, today).0, member, c, today)
            == numbered_record(record, member, c, today),
    decreases record, 0nat, 0nat,
{
    lemma_numbered_entries_twice(
        record.subtasks,
        Some(record.current_date),
        if member {
            next_id(c)
        } else {
            c
        },
        today,
    );
}

/// Visiting again, in the same order, the first `k` records of a level
/// that has just been numbered leaves every record as it is and brings the
/// counter to where the first visit had it.
proof fn lemma_numbered_upto_twice(
    entries: Seq<(int, RecordView)>,
    order: Seq<int>,
    k: nat,
    parent: Option<int>,
    c: int,
    today: Day,
)
    requires
        order == ascending_order(dates_of(entries)),
        k <= entries.len(),
    ensures
        numbered_upto(numbered_entries(entries, parent, c, today).0, order, k, parent, c, today)
            == (
            numbered_entries(entries, parent, c, today).0,
            numbered_upto(entries, order, k, parent, c, today).1,
        ),
    decreases entries, 0nat, k,
{
    if k > 0 {
        let once = numbered_entries(entries, parent, c, today).0;
        lemma_ascending_order(dates_of(entries));
        lemma_numbered_upto_twice(entries, order, (k - 1) as nat, parent, c, today);
        lemma_numbered_upto(entries, order, entries.len(), parent, c, today);
        lemma_numbering_keeps_shape(entries, parent, c, today);
        let at = order[k - 1];
        let reached = numbered_upto(entries, order, (k - 1) as nat, parent, c, today).1;
        let member = belongs(parent, entries[at].1, today);
        assert(once[order[k - 1]].1 == numbered_record(entries[at].1, member, reached, today).0);
        assert(belongs(parent, once[at].1, today) == member);
        lemma_numbered_record_twice(entries[at].1, member, reached, today);
        assert(once.update(at, (once[at].0, once[at].1)) =~= once);
    }
}

/// Numbering the records of a level that has just been numbered, from the
/// same counter, gives the same records and the same counter again.
pub proof fn lemma_numbered_entries_twice(
    entries: Seq<(int, RecordView)>,
    parent: Option<int>,
    c: int,
    today: Day,
)
    ensures
        numbered_entries(numbered_entries(entries, parent, c, today).0, parent, c, today)
            == numbered_entries(entries, parent, c, today),
    decreases entries, 1nat, 0nat,
{
    lemma_numbering_keeps_shape(entries, parent, c, today);
    lemma_numbered_upto_twice(
        entries,
        ascending_order(dates_of(entries)),
        entries.len(),
        parent,
        c,
        today,
    );
}

/// Numbering is idempotent: numbering twice in a row, for the same day and
/// with nothing changed in between, gives the daily identifiers that
/// numbering once gives.
pub proof fn lemma_numbering_idempotent(journal: DataView, today: Day)
    ensures
        journal.numbered(today).numbered(today) == journal.numbered(today),
{
    lemma_numbered_entries_twice(journal.content, None, 1, today);
}

/// Whether the root record at position `i` is shown under the day `today`.
pub open spec fn on_day(entries: Seq<(int, RecordView)>, i: int, today: Day) -> bool {
    today.covers(entries[i].1.current_date)
}

/// The positions of the root records that are shown under the day `today`.
pub open spec fn roots_of_day(entries: Seq<(int, RecordView)>, today: Day) -> Set<int> {
    Set::new(|i: int| 0 <= i < entries.len() && on_day(entries, i, today))
}

/// Whether the record at position `i` is visited before the record at
/// position `j`: it is shown under an earlier instant, or under the same
/// instant and stands in front.
pub open spec fn visited_before(entries: Seq<(int, RecordView)>, i: int, j: int) -> bool {
    entries[i].1.current_date < entries[j].1.current_date || (entries[i].1.current_date
        == entries[j].1.current_date && i < j)
}

/// Whether no record nested under `record`, at any depth, takes a daily
/// identifier for the day `today`: numbering them leaves the counter where
/// it was.
pub open spec fn nests_none(record: RecordView, today: Day) -> bool {
    forall|c: int|
        (#[trigger] numbered_entries(record.subtasks, Some(record.current_date), c, today)).1 == c
}

/// A record with nothing nested under it is one under which nothing takes
/// an identifier.
pub proof fn lemma_leaf_nests_none(record: RecordView, today: Day)
    requires
        record.subtasks.len() == 0,
    ensures
        nests_none(record, today),
{
}

/// The daily identifier of the record at each position of `entries`.
pub open spec fn daily_id_at(entries: Seq<(int, RecordView)>) -> spec_fn(int) -> int {
    |i: int| entries[i].1.daily_id
}

/// How many of the first `k` records visited are shown under `today`.
pub open spec fn met(entries: Seq<(int, RecordView)>, order: Seq<int>, k: nat, today: Day) -> nat
    decreases k,
{
    if k == 0 {
        0
    } else {
        met(entries, order, (k - 1) as nat, today) + if on_day(entries, order[k - 1], today) {
            1nat
        } else {
            0nat
        }
    }
}

/// `met` grows with the number of records visited, by one record at most
/// for each.
proof fn lemma_met_grows(
    entries: Seq<(int, RecordView)>,
    order: Seq<int>,
    a: nat,
    b: nat,
    today: Day,
)
    requires
        a <= b,
    ensures
        met(entries, order, a, today) <= met(entries, order, b, today) <= met(
            entries,
            order,
            a,
            today,
        ) + (b - a),
    decreases b,
{
    if a < b {
        lemma_met_grows(entries, order, a, (b - 1) as nat, today);
    }
}

/// Every count from 1 to `met` at `k` is reached by a record of the day
/// among the first `k` visited.
proof fn lemma_met_hits(
    entries: Seq<(int, RecordView)>,
    order: Seq<int>,
    k: nat,
    y: int,
    today: Day,
) -> (a: int)
    requires
        1 <= y <= met(entries, order, k, today),
    ensures
        0 <= a < k,
        on_day(entries, order[a], today),
        met(entries, order, a as nat, today) == y - 1,
    decreases k,
{
    if on_day(entries, order[k - 1], today) && met(entries, order, (k - 1) as nat, today) == y - 1 {
        k - 1
    } else {
        lemma_met_hits(entries, order, (k - 1) as nat, y, today)
    }
}

/// Where nothing nested under the first `k` root records visited takes an
/// identifier, the counter after them is one more than the number of them
/// that are shown under the day.
proof fn lemma_counter_reached(
    entries: Seq<(int, RecordView)>,
    order: Seq<int>,
    k: nat,
    today: Day,
)
    requires
        is_arrangement(order, entries.len()),
        k <= entries.len() < i64::MAX,
        forall|j: int| 0 <= j < k ==> nests_none((#[trigger] entries[order[j]]).1, today),
    ensures
        numbered_upto(entries, order, k, None, 1, today).1 == 1 + met(entries, order, k, today),
    decreases k,
{
    if k > 0 {
        lemma_counter_reached(entries, order, (k - 1) as nat, today);
        lemma_met_grows(entries, order, 0, (k - 1) as nat, today);
        let reached = numbered_upto(entries, order, (k - 1) as nat, None, 1, today).1;
        let record = entries[order[k - 1]].1;
        let member = belongs(None, record, today);
        assert(member == on_day(entries, order[k - 1], today));
        assert(nests_none(entries[order[k - 1]].1, today));
        let from = if member {
            next_id(reached)
        } else {
            reached
        };
        assert(numbered_entries(record.subtasks, Some(record.current_date), from, today).1 == from);
        assert(0 <= order[k - 1] < entries.len());
        assert(numbered_record(record, member, reached, today).1 == from);
        assert(numbered_upto(entries, order, k, None, 1, today).1 == numbered_record(
            record,
            member,
            reached,
            today,
        ).1);
        assert(reached == 1 + met(entries, order, (k - 1) as nat, today));
        assert(reached < i64::MAX);
    }
}

/// Completeness of the numbering: the daily identifiers of the root
/// records shown under the day are exactly the numbers from 1 to the number
/// of those records, each taken once, and every other root record has 0.
///
/// Nested records take their identifiers from the same counter, right after
/// their root. The statement therefore leaves out the journals in which a
/// root record that is visited before a root record of the day has nested
/// records that take an identifier.
pub proof fn lemma_daily_ids_complete(journal: DataView, today: Day)
    requires
        journal.content.len() < i64::MAX,
        forall|i: int, j: int|
            #![trigger journal.content[i], journal.content[j]]
            0 <= i < journal.content.len() && 0 <= j < journal.content.len() && on_day(
                journal.content,
                j,
                today,
            ) && visited_before(journal.content, i, j) ==> nests_none(journal.content[i].1, today),
    ensures
        roots_of_day(journal.content, today).finite(),
        forall|i: int|
            0 <= i < journal.content.len() && !on_day(journal.content, i, today) ==> (
            #[trigger] journal.numbered(today).content[i]).1.daily_id == 0,
        injective_on(
            daily_id_at(journal.numbered(today).content),
            roots_of_day(journal.content, today),
        ),
        roots_of_day(journal.content, today).map(daily_id_at(journal.numbered(today).content))
            == set_int_range(1, roots_of_day(journal.content, today).len() as int + 1),
{
    let entries = journal.content;
    let n = entries.len();
    let dates = dates_of(entries);
    let order = ascending_order(dates);
    let after = journal.numbered(today).content;
    let roots = roots_of_day(entries, today);
    let ids = daily_id_at(after);
    let top = met(entries, order, n, today) as int;
    lemma_ascending_order(dates);
    lemma_numbered_upto(entries, order, n, None, 1, today);
    assert(forall|i: int| 0 <= i < n ==> dates[i] == entries[i].1.current_date);

    // What each record holds after the visit.
    assert forall|k: int| 0 <= k < n implies (#[trigger] after[order[k]]).1.daily_id == (if on_day(
        entries,
        order[k],
        today,
    ) {
        1 + met(entries, order, k as nat, today)
    } else {
        0
    }) by {
        let record = entries[order[k]].1;
        assert(belongs(None, record, today) == on_day(entries, order[k], today));
        if on_day(entries, order[k], today) {
            assert forall|j: int| 0 <= j < k implies nests_none(
                (#[trigger] entries[order[j]]).1,
                today,
            ) by {
                assert(is_stably_sorted(order, dates));
                assert(dates[order[j]] < dates[order[k]] || (dates[order[j]] == dates[order[k]]
                    && order[j] < order[k]));
                assert(visited_before(entries, order[j], order[k]));
            }
            lemma_counter_reached(entries, order, k as nat, today);
        }
    }

    assert forall|i: int| 0 <= i < n && !on_day(entries, i, today) implies (#[trigger] after[i]).1.daily_id
        == 0 by {
        assert(order.contains(i));
        let k = choose|k: int| 0 <= k < order.len() && order[k] == i;
        assert(after[order[k]].1.daily_id == 0);
    }

    // The positions of the day are finitely many.
    lemma_int_range(0, n as int);
    assert(roots.subset_of(set_int_range(0, n as int)));
    lemma_len_subset(roots, set_int_range(0, n as int));

    // No identifier is taken twice.
    assert forall|i1: int, i2: int|
        roots.contains(i1) && roots.contains(i2) && #[trigger] ids(i1) == #[trigger] ids(
            i2,
        ) implies i1 == i2 by {
        assert(order.contains(i1));
        assert(order.contains(i2));
        let k1 = choose|k: int| 0 <= k < order.len() && order[k] == i1;
        let k2 = choose|k: int| 0 <= k < order.len() && order[k] == i2;
        assert(after[order[k1]].1.daily_id == 1 + met(entries, order, k1 as nat, today));
        assert(after[order[k2]].1.daily_id == 1 + met(entries, order, k2 as nat, today));
        if k1 < k2 {
            lemma_met_grows(entries, order, (k1 + 1) as nat, k2 as nat, today);
        } else if k2 < k1 {
            lemma_met_grows(entries, order, (k2 + 1) as nat, k1 as nat, today);
        }
    }

    // The identifiers taken are the numbers from 1 to `top`.
    let range = set_int_range(1, top + 1);
    assert forall|x: int| roots.map(ids).contains(x) implies range.contains(x) by {
        let i = choose|i: int| roots.contains(i) && x == ids(i);
        assert(order.contains(i));
        let k = choose|k: int| 0 <= k < order.len() && order[k] == i;
        assert(after[order[k]].1.daily_id == 1 + met(entries, order, k as nat, today));
        lemma_met_grows(entries, order, (k + 1) as nat, n, today);
    }
    assert forall|x: int| range.contains(x) implies roots.map(ids).contains(x) by {
        let a = lemma_met_hits(entries, order, n, x, today);
        let i = order[a];
        assert(after[order[a]].1.daily_id == x);
        assert(roots.contains(i) && x == ids(i));
    }
    assert(roots.map(ids) =~= range);
    lemma_map_size(roots, range, ids);
    lemma_int_range(1, top + 1);
}

/// The scope of completion: completing the daily identifier `id` changes
/// nothing but signifiers. A root record, and a record nested directly
/// under a root record, takes the glyph of completion where it carries
/// `id` and keeps its signifier where it does not; whatever is nested
/// deeper is left exactly as it is.
pub proof fn lemma_completion_scope(journal: DataView, id: int)
    ensures
        journal.completed(id).content.len() == journal.content.len(),
        forall|i: int|
            0 <= i < journal.content.len() ==> {
                let before = journal.content[i];
                let after = #[trigger] journal.completed(id).content[i];
                &&& after.0 == before.0
                &&& after.1 == RecordView {
                    signifier: after.1.signifier,
                    subtasks: after.1.subtasks,
                    ..before.1
                }
                &&& after.1.signifier == if before.1.daily_id == id {
                    Signifier::Complete.glyph()
                } else {
                    before.1.signifier
                }
                &&& after.1.subtasks.len() == before.1.subtasks.len()
            },
        forall|i: int, j: int|
            0 <= i < journal.content.len() && 0 <= j < journal.content[i].1.subtasks.len() ==> {
                let before = journal.content[i].1.subtasks[j];
                let after = #[trigger] journal.completed(id).content[i].1.subtasks[j];
                &&& after.0 == before.0
                &&& after.1 == RecordView { signifier: after.1.signifier, ..before.1 }
                &&& after.1.signifier == if before.1.daily_id == id {
                    Signifier::Complete.glyph()
                } else {
                    before.1.signifier
                }
                &&& after.1.subtasks == before.1.subtasks
            },
{
}

/// Adding a root record keeps the keys unique.
pub proof fn lemma_added_well_formed(
    journal: DataView,
    content_type: Seq<char>,
    content: Seq<char>,
    now: int,
)
    requires
        well_formed(journal.content),
    ensures
        well_formed(journal.added(content_type, content, now).content),
{
    let after = journal.added(content_type, content, now).content;
    let keys = keys_of(journal.content);
    lemma_largest(keys);
    assert forall|i: int, j: int| 0 <= i < j < after.len() implies (#[trigger] after[i]).0 != (
    #[trigger] after[j]).0 by {
        if j == after.len() - 1 {
            assert(keys[i] == journal.content[i].0);
            assert(after[i] == journal.content[i]);
        } else {
            assert(after[i] == journal.content[i] && after[j] == journal.content[j]);
        }
    }
    assert forall|i: int| 0 <= i < after.len() implies nested_keys_unique((#[trigger] after[i]).1) by {
        if i < after.len() - 1 {
            assert(after[i] == journal.content[i]);
        }
    }
}

/// Nesting a record under a root record keeps the keys unique.
pub proof fn lemma_with_subtask_well_formed(
    journal: DataView,
    at: int,
    content_type: Seq<char>,
    content: Seq<char>,
    now: int,
)
    requires
        well_formed(journal.content),
        0 <= at < journal.content.len(),
    ensures
        well_formed(journal.with_subtask(at, content_type, content, now).content),
{
    let after = journal.with_subtask(at, content_type, content, now).content;
    let nested = journal.content[at].1.subtasks;
    let grown = after[at].1.subtasks;
    let keys = keys_of(nested);
    lemma_largest(keys);
    assert(nested_keys_unique(journal.content[at].1));
    assert forall|i: int, j: int| 0 <= i < j < grown.len() implies (#[trigger] grown[i]).0 != (
    #[trigger] grown[j]).0 by {
        if j == grown.len() - 1 {
            assert(keys[i] == nested[i].0);
            assert(grown[i] == nested[i]);
        } else {
            assert(grown[i] == nested[i] && grown[j] == nested[j]);
        }
    }
    assert forall|i: int| 0 <= i < grown.len() implies nested_keys_unique((#[trigger] grown[i]).1) by {
        if i < grown.len() - 1 {
            assert(grown[i] == nested[i]);
        }
    }
    assert forall|i: int, j: int| 0 <= i < j < after.len() implies (#[trigger] after[i]).0 != (
    #[trigger] after[j]).0 by {
        assert(after[i].0 == journal.content[i].0 && after[j].0 == journal.content[j].0);
    }
    assert forall|i: int| 0 <= i < after.len() implies nested_keys_unique((#[trigger] after[i]).1) by {
        if i != at {
            assert(after[i] == journal.content[i]);
        }
    }
}

/// Deleting a root record keeps the keys unique, and no root record has
/// the key of the deleted one afterwards.
pub proof fn lemma_without_well_formed(journal: DataView, at: int)
    requires
        well_formed(journal.content),
        0 <= at < journal.content.len(),
    ensures
        well_formed(journal.without(at).content),
        forall|i: int|
            0 <= i < journal.without(at).content.len() ==> (#[trigger] journal.without(
                at,
            ).content[i]).0 != journal.content[at].0,
{
    let after = journal.without(at).content;
    assert forall|i: int| 0 <= i < after.len() implies (#[trigger] after[i]) == journal.content[if i
        < at {
        i
    } else {
        i + 1
    }] by {}
    assert forall|i: int, j: int| 0 <= i < j < after.len() implies (#[trigger] after[i]).0 != (
    #[trigger] after[j]).0 by {
        let a = if i < at { i } else { i + 1 };
        let b = if j < at { j } else { j + 1 };
        assert(journal.content[a].0 != journal.content[b].0);
    }
    assert forall|i: int| 0 <= i < after.len() implies (#[trigger] after[i]).0
        != journal.content[at].0 by {
        let a = if i < at { i } else { i + 1 };
        if a < at {
            assert(journal.content[a].0 != journal.content[at].0);
        } else {
            assert(journal.content[at].0 != journal.content[a].0);
        }
    }
    assert forall|i: int| 0 <= i < after.len() implies nested_keys_unique((#[trigger] after[i]).1) by {
        let a = if i < at { i } else { i + 1 };
        assert(nested_keys_unique(journal.content[a].1));
    }
}

/// Scheduling a root record keeps the keys unique.
pub proof fn lemma_scheduled_well_formed(journal: DataView, at: int, instant: int)
    requires
        well_formed(journal.content),
        0 <= at < journal.content.len(),
    ensures
        well_formed(journal.scheduled(at, instant).content),
{
    let after = journal.scheduled(at, instant).content;
    assert forall|i: int, j: int| 0 <= i < j < after.len() implies (#[trigger] after[i]).0 != (
    #[trigger] after[j]).0 by {
        assert(after[i].0 == journal.content[i].0 && after[j].0 == journal.content[j].0);
    }
    assert forall|i: int| 0 <= i < after.len() implies nested_keys_unique((#[trigger] after[i]).1) by {
        assert(nested_keys_unique(journal.content[i].1));
        assert(after[i].1.subtasks == journal.content[i].1.subtasks);
    }
}

/// Carrying the open tasks over keeps the keys unique.
pub proof fn lemma_migrated_well_formed(journal: DataView, now: int)
    requires
        well_formed(journal.content),
    ensures
        well_formed(journal.migrated(now).content),
{
    let after = journal.migrated(now).content;
    assert forall|i: int, j: int| 0 <= i < j < after.len() implies (#[trigger] after[i]).0 != (
    #[trigger] after[j]).0 by {
        assert(after[i].0 == journal.content[i].0 && after[j].0 == journal.content[j].0);
    }
    assert forall|i: int| 0 <= i < after.len() implies nested_keys_unique((#[trigger] after[i]).1) by {
        assert(nested_keys_unique(journal.content[i].1));
        assert(after[i].1.subtasks == journal.content[i].1.subtasks);
    }
}

/// Completing a daily identifier keeps the keys unique.
pub proof fn lemma_completed_well_formed(journal: DataView, id: int)
    requires
        well_formed(journal.content),
    ensures
        well_formed(journal.completed(id).content),
{
    let after = journal.completed(id).content;
    assert forall|i: int, j: int| 0 <= i < j < after.len() implies (#[trigger] after[i]).0 != (
    #[trigger] after[j]).0 by {
        assert(after[i].0 == journal.content[i].0 && after[j].0 == journal.content[j].0);
    }
    assert forall|i: int| 0 <= i < after.len() implies nested_keys_unique((#[trigger] after[i]).1) by {
        let before = journal.content[i].1;
        let nested = after[i].1.subtasks;
        assert(nested_keys_unique(before));
        assert(nested == marked_entries(before.subtasks, id));
        assert forall|a: int, b: int| 0 <= a < b < nested.len() implies (#[trigger] nested[a]).0 != (
        #[trigger] nested[b]).0 by {
            assert(nested[a].0 == before.subtasks[a].0 && nested[b].0 == before.subtasks[b].0);
        }
        assert forall|a: int| 0 <= a < nested.len() implies nested_keys_unique(
            (#[trigger] nested[a]).1,
        ) by {
            assert(nested_keys_unique(before.subtasks[a].1));
            assert(nested[a].1.subtasks == before.subtasks[a].1.subtasks);
        }
    }
}

/// Numbering a record keeps the keys nested under it unique.
pub proof fn lemma_numbered_record_well_formed(
    record: RecordView,
    member: bool,
    c: int,
    today: Day,
)
    requires
        nested_keys_unique(record),
    ensures
        nested_keys_unique(numbered_record(record, member, c, today).0),
    decreases record, 0nat,
{
    lemma_numbered_entries_well_formed(
        record.subtasks,
        Some(record.current_date),
        if member {
            next_id(c)
        } else {
            c
        },
        today,
    );
}

/// Numbering the records of one level keeps the keys unique.
pub proof fn lemma_numbered_entries_well_formed(
    entries: Seq<(int, RecordView)>,
    parent: Option<int>,
    c: int,
    today: Day,
)
    requires
        well_formed(entries),
    ensures
        well_formed(numbered_entries(entries, parent, c, today).0),
    decreases entries, 1nat,
{
    let order = ascending_order(dates_of(entries));
    lemma_ascending_order(dates_of(entries));
    lemma_numbered_upto(entries, order, entries.len(), parent, c, today);
    lemma_numbering_keeps_shape(entries, parent, c, today);
    let after = numbered_entries(entries, parent, c, today).0;
    assert forall|i: int, j: int| 0 <= i < j < after.len() implies (#[trigger] after[i]).0 != (
    #[trigger] after[j]).0 by {
        assert(after[i].0 == entries[i].0 && after[j].0 == entries[j].0);
    }
    assert forall|i: int| 0 <= i < after.len() implies nested_keys_unique((#[trigger] after[i]).1) by {
        assert(order.contains(i));
        let j = choose|j: int| 0 <= j < order.len() && order[j] == i;
        assert(after[order[j]].0 == entries[order[j]].0);
        assert(nested_keys_unique(entries[i].1));
        lemma_numbered_record_well_formed(
            entries[i].1,
            belongs(parent, entries[i].1, today),
            numbered_upto(entries, order, j as nat, parent, c, today).1,
            today,
        );
    }
}

/// Numbering the journal keeps the keys unique.
pub proof fn lemma_numbered_well_formed(journal: DataView, today: Day)
    requires
        well_formed(journal.content),
    ensures
        well_formed(journal.numbered(today).content),
{
    lemma_numbered_entries_well_formed(journal.content, None, 1, today);
}

/// Whether the signifier of `record` is derived from its state: the glyph
/// of its kind, or the glyph of completion.
pub open spec fn signifier_fits(record: RecordView) -> bool {
    record.signifier == Signifier::of_kind(record.content_type).glyph() || record.signifier
        == Signifier::Complete.glyph()
}

/// Whether the signifier of `record` and of every record nested under it,
/// at any depth, is derived from its state.
pub open spec fn signifiers_fit(record: RecordView) -> bool
    decreases record,
{
    &&& signifier_fits(record)
    &&& forall|i: int|
        0 <= i < record.subtasks.len() ==> signifiers_fit((#[trigger] record.subtasks[i]).1)
}

/// Whether every signifier of the journal is derived from the state of its
/// record.
pub open spec fn all_signifiers_fit(entries: Seq<(int, RecordView)>) -> bool {
    forall|i: int| 0 <= i < entries.len() ==> signifiers_fit((#[trigger] entries[i]).1)
}

/// A record as it is made carries the glyph of its kind.
pub proof fn lemma_fresh_record_fits(
    content_type: Seq<char>,
    content: Seq<char>,
    now: int,
    daily_id: int,
)
    ensures
        signifiers_fit(fresh_record(content_type, content, now, daily_id)),
        fresh_record(content_type, content, now, daily_id).signifier == Signifier::of_kind(
            content_type,
        ).glyph(),
{
    let kind = Signifier::of_kind(content_type);
    let note = seq!['n', 'o', 't', 'e'];
    let event = seq!['e', 'v', 'e', 'n', 't'];
    let task = seq!['t', 'a', 's', 'k'];
    assert(note[0] == 'n' && event[0] == 'e' && task[0] == 't');
    assert(Signifier::of_kind(kind.kind_text()) == kind);
}

/// Adding a root record keeps every signifier derived.
pub proof fn lemma_added_fits(
    journal: DataView,
    content_type: Seq<char>,
    content: Seq<char>,
    now: int,
)
    requires
        all_signifiers_fit(journal.content),
    ensures
        all_signifiers_fit(journal.added(content_type, content, now).content),
{
    let after = journal.added(content_type, content, now).content;
    assert forall|i: int| 0 <= i < after.len() implies signifiers_fit((#[trigger] after[i]).1) by {
        if i < after.len() - 1 {
            assert(after[i] == journal.content[i]);
        } else {
            lemma_fresh_record_fits(content_type, content, now, after[i].1.daily_id);
        }
    }
}

/// Nesting a record under a root record keeps every signifier derived.
pub proof fn lemma_with_subtask_fits(
    journal: DataView,
    at: int,
    content_type: Seq<char>,
    content: Seq<char>,
    now: int,
)
    requires
        all_signifiers_fit(journal.content),
        0 <= at < journal.content.len(),
    ensures
        all_signifiers_fit(journal.with_subtask(at, content_type, content, now).content),
{
    let after = journal.with_subtask(at, content_type, content, now).content;
    let nested = journal.content[at].1.subtasks;
    let grown = after[at].1.subtasks;
    assert(signifiers_fit(journal.content[at].1));
    assert forall|i: int| 0 <= i < grown.len() implies signifiers_fit((#[trigger] grown[i]).1) by {
        if i < grown.len() - 1 {
            assert(grown[i] == nested[i]);
        } else {
            lemma_fresh_record_fits(content_type, content, now, grown[i].1.daily_id);
        }
    }
    assert forall|i: int| 0 <= i < after.len() implies signifiers_fit((#[trigger] after[i]).1) by {
        if i != at {
            assert(after[i] == journal.content[i]);
        }
    }
}

/// Deleting a root record keeps every signifier derived.
pub proof fn lemma_without_fits(journal: DataView, at: int)
    requires
        all_signifiers_fit(journal.content),
        0 <= at < journal.content.len(),
    ensures
        all_signifiers_fit(journal.without(at).content),
{
    let after = journal.without(at).content;
    assert forall|i: int| 0 <= i < after.len() implies signifiers_fit((#[trigger] after[i]).1) by {
        let a = if i < at { i } else { i + 1 };
        assert(after[i] == journal.content[a]);
    }
}

/// Scheduling a root record keeps every signifier derived.
pub proof fn lemma_scheduled_fits(journal: DataView, at: int, instant: int)
    requires
        all_signifiers_fit(journal.content),
        0 <= at < journal.content.len(),
    ensures
        all_signifiers_fit(journal.scheduled(at, instant).content),
{
    let after = journal.scheduled(at, instant).content;
    assert forall|i: int| 0 <= i < after.len() implies signifiers_fit((#[trigger] after[i]).1) by {
        assert(signifiers_fit(journal.content[i].1));
        assert(after[i].1.subtasks == journal.content[i].1.subtasks);
    }
}

/// Carrying the open tasks over keeps every signifier derived.
pub proof fn lemma_migrated_fits(journal: DataView, now: int)
    requires
        all_signifiers_fit(journal.content),
    ensures
        all_signifiers_fit(journal.migrated(now).content),
{
    let after = journal.migrated(now).content;
    assert forall|i: int| 0 <= i < after.len() implies signifiers_fit((#[trigger] after[i]).1) by {
        assert(signifiers_fit(journal.content[i].1));
        assert(after[i].1.subtasks == journal.content[i].1.subtasks);
        if is_open_task(journal.content[i].1) {
            assert(after[i].1.signifier == journal.content[i].1.signifier);
        }
    }
}

/// Completing a daily identifier keeps every signifier derived: a record
/// that is completed carries the glyph of completion, whatever its kind.
pub proof fn lemma_completed_fits(journal: DataView, id: int)
    requires
        all_signifiers_fit(journal.content),
    ensures
        all_signifiers_fit(journal.completed(id).content),
{
    let after = journal.completed(id).content;
    assert forall|i: int| 0 <= i < after.len() implies signifiers_fit((#[trigger] after[i]).1) by {
        let before = journal.content[i].1;
        let nested = after[i].1.subtasks;
        assert(signifiers_fit(before));
        assert(nested == marked_entries(before.subtasks, id));
        assert forall|a: int| 0 <= a < nested.len() implies signifiers_fit(
            (#[trigger] nested[a]).1,
        ) by {
            assert(signifiers_fit(before.subtasks[a].1));
            assert(nested[a].1.subtasks == before.subtasks[a].1.subtasks);
        }
    }
}

/// Numbering a record keeps every signifier under it derived.
pub proof fn lemma_numbered_record_fits(record: RecordView, member: bool, c: int, today: Day)
    requires
        signifiers_fit(record),
    ensures
        signifiers_fit(numbered_record(record, member, c, today).0),
    decreases record, 0nat,
{
    lemma_numbered_entries_fit(
        record.subtasks,
        Some(record.current_date),
        if member {
            next_id(c)
        } else {
            c
        },
        today,
    );
}

/// Numbering the records of one level keeps every signifier derived.
pub proof fn lemma_numbered_entries_fit(
    entries: Seq<(int, RecordView)>,
    parent: Option<int>,
    c: int,
    today: Day,
)
    requires
        all_signifiers_fit(entries),
    ensures
        all_signifiers_fit(numbered_entries(entries, parent, c, today).0),
    decreases entries, 1nat,
{
    let order = ascending_order(dates_of(entries));
    lemma_ascending_order(dates_of(entries));
    lemma_numbered_upto(entries, order, entries.len(), parent, c, today);
    let after = numbered_entries(entries, parent, c, today).0;
    assert forall|i: int| 0 <= i < after.len() implies signifiers_fit((#[trigger] after[i]).1) by {
        assert(order.contains(i));
        let j = choose|j: int| 0 <= j < order.len() && order[j] == i;
        assert(after[order[j]].0 == entries[order[j]].0);
        assert(signifiers_fit(entries[i].1));
        lemma_numbered_record_fits(
            entries[i].1,
            belongs(parent, entries[i].1, today),
            numbered_upto(entries, order, j as nat, parent, c, today).1,
            today,
        );
    }
}

/// Numbering the journal keeps every signifier derived.
pub proof fn lemma_numbered_fits(journal: DataView, today: Day)
    requires
        all_signifiers_fit(journal.content),
    ensures
        all_signifiers_fit(journal.numbered(today).content),
{
    lemma_numbered_entries_fit(journal.content, None, 1, today);
}

} // verus!
