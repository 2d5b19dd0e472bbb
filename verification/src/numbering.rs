//! The numbering of the records of one day.
//!
//! The records of a level are visited by ascending day. A record that
//! belongs to the day takes the next identifier, every other record takes 0,
//! and the records nested under a record are numbered right after it, from
//! the same counter. A root record belongs to the day when its own day is
//! the day; a nested record belongs to it when the day of its parent is.

use crate::calendar::Day;
use crate::data::{Data, DataView};
use crate::laws::{
    entries_without_ids, lemma_numbered_well_formed, lemma_numbering_keeps_records,
};
use crate::order::{ascending_order, is_arrangement, lemma_ascending_order, positions, visiting_order};
use crate::record::{dates_of, entries_view, lemma_entries_view, BujoObject, RecordView};
use vstd::prelude::*;

verus! {

/// The identifier after `c`. The largest identifier that can be stored is
/// followed by itself.
pub open spec fn next_id(c: int) -> int {
    if c < i64::MAX {
        c + 1
    } else {
        c
    }
}

/// Whether a record belongs to the day `today`: by the day of its parent
/// where it has one (`parent` holds that day), by its own day where it is a
/// root record.
pub open spec fn belongs(parent: Option<int>, record: RecordView, today: Day) -> bool {
    match parent {
        Some(date) => today.covers(date),
        None => today.covers(record.current_date),
    }
}

/// A record and everything under it, numbered from the counter `c`, and the
/// counter after it. The record takes `c` where `member` holds and 0 where
/// it does not.
pub open spec fn numbered_record(record: RecordView, member: bool, c: int, today: Day) -> (
    RecordView,
    int,
)
    decreases record, 1nat,
{
    let inner = numbered_entries(
        record.subtasks,
        Some(record.current_date),
        if member {
            next_id(c)
        } else {
            c
        },
        today,
    );
    (
        RecordView { daily_id: if member { c } else { 0 }, subtasks: inner.0, ..record },
        inner.1,
    )
}

/// The records of one level after the first `k` positions of `order` have
/// been visited, and the counter at that point.
pub open spec fn numbered_upto(
    entries: Seq<(int, RecordView)>,
    order: Seq<int>,
    k: nat,
    parent: Option<int>,
    c: int,
    today: Day,
) -> (Seq<(int, RecordView)>, int)
    decreases entries, 0nat, k,
{
    if k == 0 {
        (entries, c)
    } else {
        let before = numbered_upto(entries, order, (k - 1) as nat, parent, c, today);
        let at = order[k - 1];
        if 0 <= at < entries.len() {
            let record = entries[at].1;
            let done = numbered_record(record, belongs(parent, record, today), before.1, today);
            (before.0.update(at, (entries[at].0, done.0)), done.1)
        } else {
            before
        }
    }
}

/// The records of one level, numbered from the counter `c` in their
/// visiting order, and the counter after the last of them.
pub open spec fn numbered_entries(
    entries: Seq<(int, RecordView)>,
    parent: Option<int>,
    c: int,
    today: Day,
) -> (Seq<(int, RecordView)>, int)
    decreases entries, 1nat, 0nat,
{
    numbered_upto(entries, ascending_order(dates_of(entries)), entries.len(), parent, c, today)
}

/// A record whose nested records are numbered from the counter `c`, the
/// record itself left as it is, and the counter after them.
pub open spec fn numbered_children(record: RecordView, c: int, today: Day) -> (RecordView, int) {
    let inner = numbered_entries(record.subtasks, Some(record.current_date), c, today);
    (RecordView { subtasks: inner.0, ..record }, inner.1)
}

/// What a partial visit has done: the visited positions hold their record
/// numbered from the counter that the visit had reached, every other
/// position holds what it held.
pub proof fn lemma_numbered_upto(
    entries: Seq<(int, RecordView)>,
    order: Seq<int>,
    k: nat,
    parent: Option<int>,
    c: int,
    today: Day,
)
    requires
        is_arrangement(order, entries.len()),
        k <= entries.len(),
    ensures
        numbered_upto(entries, order, k, parent, c, today).0.len() == entries.len(),
        forall|j: int|
            0 <= j < k ==> (#[trigger] numbered_upto(entries, order, k, parent, c, today).0[order[j]])
                == (
                entries[order[j]].0,
                numbered_record(
                    entries[order[j]].1,
                    belongs(parent, entries[order[j]].1, today),
                    numbered_upto(entries, order, j as nat, parent, c, today).1,
                    today,
                ).0,
            ),
        forall|j: int|
            k <= j < entries.len() ==> (#[trigger] numbered_upto(
                entries,
                order,
                k,
                parent,
                c,
                today,
            ).0[order[j]]) == entries[order[j]],
    decreases k,
{
    if k > 0 {
        lemma_numbered_upto(entries, order, (k - 1) as nat, parent, c, today);
        let before = numbered_upto(entries, order, (k - 1) as nat, parent, c, today);
        let after = numbered_upto(entries, order, k, parent, c, today);
        let at = order[k - 1];
        assert(0 <= at < entries.len());
        assert forall|j: int| 0 <= j < k implies (#[trigger] after.0[order[j]]) == (
            entries[order[j]].0,
            numbered_record(
                entries[order[j]].1,
                belongs(parent, entries[order[j]].1, today),
                numbered_upto(entries, order, j as nat, parent, c, today).1,
                today,
            ).0,
        ) by {
            if j < k - 1 {
                assert(order[j] != order[k - 1]);
                assert(after.0[order[j]] == before.0[order[j]]);
            }
        }
        assert forall|j: int| k <= j < entries.len() implies (#[trigger] after.0[order[j]])
            == entries[order[j]] by {
            assert(order[k - 1] != order[j]);
            assert(after.0[order[j]] == before.0[order[j]]);
        }
    }
}

/// Numbers the records of one level, and everything under them, from the
/// counter `counter`, and returns the counter after the last of them.
///
/// `parent` holds the day of the record that `entries` are nested under, and
/// is `None` for root records.
pub fn number_entries(
    entries: &mut Vec<(i64, BujoObject)>,
    parent: Option<i64>,
    counter: i64,
    today: &Day,
) -> (after: i64)
    ensures
        (entries_view(final(entries)@), after as int) == numbered_entries(
            entries_view(old(entries)@),
            match parent {
                Some(date) => Some(date as int),
                None => None,
            },
            counter as int,
            *today,
        ),
    decreases *old(entries),
{
    let ghost start = entries_view(entries@);
    let ghost above: Option<int> = match parent {
        Some(date) => Some(date as int),
        None => None,
    };
    let order = visiting_order(entries);
    let ghost steps = positions(order@);
    let n = order.len();
    let mut counter = counter;
    let ghost first = counter as int;
    let mut k: usize = 0;
    proof {
        lemma_entries_view(entries@);
        lemma_ascending_order(dates_of(start));
    }
    while k < n
        invariant
            k <= n,
            n == order@.len(),
            n == entries@.len(),
            n == old(entries)@.len(),
            start == entries_view(old(entries)@),
            start.len() == n,
            steps == positions(order@),
            steps == ascending_order(dates_of(start)),
            is_arrangement(steps, n as nat),
            above == match parent {
                Some(date) => Some(date as int),
                None => None::<int>,
            },
            forall|j: int| k <= j < n ==> entries@[#[trigger] steps[j]] == old(entries)@[steps[j]],
            (entries_view(entries@), counter as int) == numbered_upto(
                start,
                steps,
                k as nat,
                above,
                first,
                *today,
            ),
        decreases n - k,
    {
        let at = order[k];
        let ghost held = entries@;
        let ghost reached = counter as int;
        proof {
            assert(steps[k as int] == at);
            assert(entries@[steps[k as int]] == old(entries)@[steps[k as int]]);
            lemma_entries_view(old(entries)@);
            lemma_entries_view(held);
        }
        let own = entries[at].1.current_date;
        let member = match parent {
            Some(date) => today.contains(date),
            None => today.contains(own),
        };
        if member {
            entries[at].1.daily_id = counter;
            if counter < i64::MAX {
                counter = counter + 1;
            }
        } else {
            entries[at].1.daily_id = 0;
        }
        counter = number_entries(&mut entries[at].1.subtasks, Some(own), counter, today);
        proof {
            let record = start[at as int].1;
            assert(record == old(entries)@[at as int].1@);
            assert(member == belongs(above, record, *today));
            let done = numbered_record(record, member, reached, *today);
            assert(entries@[at as int].1@ == done.0);
            assert(counter == done.1);
            assert(entries@.len() == held.len());
            assert(forall|j: int| 0 <= j < n && j != at ==> entries@[j] == held[j]);
            assert(entries@[at as int].0 == held[at as int].0);
            lemma_entries_view(entries@);
            assert(entries_view(entries@) =~= entries_view(held).update(
                at as int,
                (start[at as int].0, done.0),
            ));
            assert forall|j: int| k + 1 <= j < n implies entries@[#[trigger] steps[j]] == old(
                entries,
            )@[steps[j]] by {
                assert(steps[k as int] != steps[j]);
            }
        }
        k += 1;
    }
    counter
}

impl DataView {
    /// The journal with every record numbered for the day `today`: the
    /// root records are numbered from 1, and nothing but the daily
    /// identifiers is changed.
    pub open spec fn numbered(self, today: Day) -> DataView {
        DataView { content: numbered_entries(self.content, None, 1, today).0, ..self }
    }
}

impl Data {
    /// Numbers everything nested under the record of `tuple` for the day
    /// `today`, starting from `counter`, and returns the pair with the
    /// counter after the last record. The record of `tuple` itself keeps its
    /// daily identifier.
    ///
    /// A nested record takes an identifier when the day of its parent is
    /// `today`, whatever its own day is.
    pub fn recursive_id(&self, tuple: (i64, BujoObject), counter: i64, today: &Day) -> (result: (
        (i64, BujoObject),
        i64,
    ))
        ensures
            result.0.0 == tuple.0,
            (result.0.1@, result.1 as int) == numbered_children(tuple.1@, counter as int, *today),
    {
        let mut pair = tuple;
        let own = pair.1.current_date;
        let after = number_entries(&mut pair.1.subtasks, Some(own), counter, today);
        (pair, after)
    }

    /// Gives every record its daily identifier for the day `today`.
    ///
    /// The root records are visited by ascending day, records of the same
    /// instant in the order in which they stand. A root record whose day is
    /// `today` takes the next identifier, counted from 1; every other takes
    /// 0. The records nested under a record are numbered right after it,
    /// from the same counter. Nothing but the daily identifiers is changed.
    pub fn calculate_ids_for(self, today: &Day) -> (data: Data)
        ensures
            data@ == self@.numbered(*today),
            entries_without_ids(data@.content) == entries_without_ids(self@.content),
            self@.well_formed() ==> data@.well_formed(),
    {
        let mut data = self;
        let _ = number_entries(&mut data.content, None, 1, today);
        proof {
            lemma_numbering_keeps_records(self@, *today);
            if self@.well_formed() {
                lemma_numbered_well_formed(self@, *today);
            }
        }
        data
    }

    /// Gives every record its daily identifier for the current day of the
    /// local calendar. Whatever that day is, nothing but the daily
    /// identifiers is changed.
    pub fn calculate_ids(self) -> (data: Data)
        ensures
            exists|today: Day| data@ == #[trigger] self@.numbered(today),
            entries_without_ids(data@.content) == entries_without_ids(self@.content),
            data@.data_dir == self@.data_dir,
            self@.well_formed() ==> data@.well_formed(),
    {
        let today = Day::today();
        self.calculate_ids_for(&today)
    }
}

} // verus!
