//! The changes of state of a record: scheduled for another day, completed,
//! or carried over to the current day.

use crate::calendar::{is_date_text, parse_date};
use crate::clock::{current_timestamp, start_of};
use crate::data::{daily_word, is_daily, resolved, Data, DataView};
use crate::error::BujoError;
use crate::laws::{
    lemma_completed_well_formed, lemma_migrated_well_formed, lemma_scheduled_well_formed,
};
use crate::record::{lemma_entries_view, BujoObject, RecordView};
use crate::signifier::Signifier;
use vstd::prelude::*;

verus! {

/// Whether a record is a task that has not been completed.
pub open spec fn is_open_task(record: RecordView) -> bool {
    record.content_type == Signifier::Task.kind_text() && record.signifier
        == Signifier::Task.glyph()
}

/// A record, completed where it carries the daily identifier `id`.
pub open spec fn marked(record: RecordView, id: int) -> RecordView {
    if record.daily_id == id {
        RecordView { signifier: Signifier::Complete.glyph(), ..record }
    } else {
        record
    }
}

/// The records of one level, each completed where it carries the daily
/// identifier `id`; what is nested under them is left as it is.
pub open spec fn marked_entries(entries: Seq<(int, RecordView)>, id: int) -> Seq<
    (int, RecordView),
> {
    Seq::new(entries.len(), |j: int| (entries[j].0, marked(entries[j].1, id)))
}

/// A root record after the daily identifier `id` has been completed: the
/// record itself and the records nested directly under it are completed
/// where they carry `id`; nothing deeper is touched.
pub open spec fn completed_record(record: RecordView, id: int) -> RecordView {
    marked(RecordView { subtasks: marked_entries(record.subtasks, id), ..record }, id)
}

/// Whether a root record, or a record nested directly under one, carries
/// the daily identifier `id`.
pub open spec fn carries(entries: Seq<(int, RecordView)>, id: int) -> bool {
    exists|i: int|
        0 <= i < entries.len() && ((#[trigger] entries[i]).1.daily_id == id || exists|j: int|
            0 <= j < entries[i].1.subtasks.len() && (#[trigger] entries[i].1.subtasks[j]).1.daily_id
                == id)
}

impl DataView {
    /// The journal after the root record at position `at` has been put
    /// under the day of `instant`.
    pub open spec fn scheduled(self, at: int, instant: int) -> DataView {
        DataView {
            content: self.content.update(
                at,
                (self.content[at].0, RecordView { current_date: instant, ..self.content[at].1 }),
            ),
            ..self
        }
    }

    /// The journal after its open tasks have been carried over to the
    /// instant `now`: every root record that is a task and not completed is
    /// shown under `now`; notes, events, completed records and everything
    /// nested are left as they are.
    pub open spec fn migrated(self, now: int) -> DataView {
        DataView {
            content: Seq::new(
                self.content.len(),
                |i: int|
                    if is_open_task(self.content[i].1) {
                        (
                            self.content[i].0,
                            RecordView { current_date: now, ..self.content[i].1 },
                        )
                    } else {
                        self.content[i]
                    },
            ),
            ..self
        }
    }

    /// The journal after the daily identifier `id` has been completed.
    pub open spec fn completed(self, id: int) -> DataView {
        DataView {
            content: Seq::new(
                self.content.len(),
                |i: int| (self.content[i].0, completed_record(self.content[i].1, id)),
            ),
            ..self
        }
    }
}

/// Tells whether a record is a task that has not been completed.
fn open_task(record: &BujoObject) -> (b: bool)
    ensures
        b == is_open_task(record@),
{
    let task = Signifier::Task.kind_name();
    let glyph = Signifier::Task.value();
    record.content_type == task && record.signifier == glyph
}

impl Data {
    /// Puts the root record that the reference names under the day that
    /// `date_string` names, given `midnight`, the instant at which the local
    /// clock begins that day.
    ///
    /// The reference is resolved first: one that names no root record is
    /// refused with `ReferenceNotFound`. Then the date is read: a text that
    /// names no date, and a date for which no midnight is given, are refused
    /// with `DateFormatInvalid`.
    pub fn schedule_with(
        self,
        id: i64,
        id_type: String,
        date_string: String,
        midnight: Option<i64>,
    ) -> (result: Result<Data, BujoError>)
        ensures
            match resolved(self@.content, id as int, id_type@ == daily_word()) {
                None => result matches Err(e) && e == BujoError::ReferenceNotFound,
                Some(i) => if is_date_text(date_string@) && midnight is Some {
                    result matches Ok(data) && data@ == self@.scheduled(i, midnight->0 as int)
                } else {
                    result matches Err(e) && e == BujoError::DateFormatInvalid
                },
            },
            result matches Ok(data) ==> (self@.well_formed() ==> data@.well_formed()),
    {
        let mut data = self;
        let daily = is_daily(&id_type);
        let at = match data.find(id, daily) {
            Some(at) => at,
            None => {
                return Err(BujoError::ReferenceNotFound);
            },
        };
        if parse_date(&date_string).is_err() {
            return Err(BujoError::DateFormatInvalid);
        }
        match midnight {
            Some(instant) => {
                proof {
                    lemma_entries_view(data.content@);
                }
                data.content[at].1.current_date = instant;
                proof {
                    lemma_entries_view(data.content@);
                    assert(data@.content =~= self@.scheduled(at as int, instant as int).content);
                    if self@.well_formed() {
                        lemma_scheduled_well_formed(self@, at as int, instant as int);
                    }
                }
                Ok(data)
            },
            None => Err(BujoError::DateFormatInvalid),
        }
    }

    /// Puts the root record that the reference names under the day that
    /// `date_string` names: its day becomes the local midnight of that date.
    ///
    /// The date is written as eight digits, year, month and day, such as
    /// `20991231`; it may lie in the past or in the future. Only a root
    /// record can be named. A reference that names no root record is refused
    /// with `ReferenceNotFound`; after that, a text that names no date is
    /// refused with `DateFormatInvalid`, and so is a date whose midnight the
    /// local clock skips.
    pub fn schedule_object(self, id: i64, id_type: String, date_string: String) -> (result: Result<
        Data,
        BujoError,
    >)
        ensures
            match result {
                Ok(data) => resolved(self@.content, id as int, id_type@ == daily_word())
                    matches Some(i) && is_date_text(date_string@) && exists|instant: i64|
                    data@ == #[trigger] self@.scheduled(i, instant as int),
                Err(e) => if resolved(self@.content, id as int, id_type@ == daily_word()) is None {
                    e == BujoError::ReferenceNotFound
                } else {
                    e == BujoError::DateFormatInvalid
                },
            },
            resolved(self@.content, id as int, id_type@ == daily_word()) is None ==> result is Err,
            !is_date_text(date_string@) ==> result is Err,
            result matches Ok(data) ==> (self@.well_formed() ==> data@.well_formed()),
    {
        let midnight = match parse_date(&date_string) {
            Ok(date) => start_of(&date),
            Err(_) => None,
        };
        self.schedule_with(id, id_type, date_string, midnight)
    }

    /// Carries the open tasks over to the instant `now`.
    pub fn migrate_objects_at(self, now: i64) -> (data: Data)
        ensures
            data@ == self@.migrated(now as int),
            self@.well_formed() ==> data@.well_formed(),
    {
        let mut data = self;
        let n = data.content.len();
        let mut i: usize = 0;
        proof {
            lemma_entries_view(self.content@);
        }
        while i < n
            invariant
                i <= n,
                n == data.content@.len(),
                n == self.content@.len(),
                data.data_dir == self.data_dir,
                forall|j: int| i <= j < n ==> data.content@[j] == self.content@[j],
                forall|j: int|
                    0 <= j < i ==> (data.content@[j].0 as int, (#[trigger] data.content@[j]).1@)
                        == self@.migrated(now as int).content[j],
            decreases n - i,
        {
            proof {
                lemma_entries_view(self.content@);
            }
            if open_task(&data.content[i].1) {
                data.content[i].1.current_date = now;
            }
            i += 1;
        }
        proof {
            lemma_entries_view(data.content@);
            assert(data@.content =~= self@.migrated(now as int).content);
            if self@.well_formed() {
                lemma_migrated_well_formed(self@, now as int);
            }
        }
        data
    }

    /// Carries the open tasks over to today: every root record that is a
    /// task and has not been completed is shown under the current instant.
    /// Notes, events, completed records and nested records at any depth are
    /// left as they are.
    pub fn migrate_objects(self) -> (data: Data)
        ensures
            exists|now: i64| data@ == #[trigger] self@.migrated(now as int),
            self@.well_formed() ==> data@.well_formed(),
    {
        let now = current_timestamp();
        self.migrate_objects_at(now)
    }

    /// Completes the record that carries the daily identifier `id`.
    ///
    /// Where `id_type` is `daily`, every root record that carries `id` is
    /// completed, and so is every record nested directly under a root record
    /// that carries it; records nested deeper are never touched. An
    /// identifier that none of these carries is refused with
    /// `ReferenceNotFound`. With every other `id_type` nothing is completed
    /// and the journal is returned as it is.
    pub fn complete_object(self, id: i64, id_type: String) -> (result: Result<Data, BujoError>)
        ensures
            if id_type@ != daily_word() {
                result matches Ok(data) && data@ == self@
            } else if carries(self@.content, id as int) {
                result matches Ok(data) && data@ == self@.completed(id as int)
            } else {
                result matches Err(e) && e == BujoError::ReferenceNotFound
            },
            result matches Ok(data) ==> (self@.well_formed() ==> data@.well_formed()),
    {
        if !is_daily(&id_type) {
            return Ok(self);
        }
        let mut data = self;
        let ghost start = self@.content;
        let ghost goal = self@.completed(id as int).content;
        let mut found = false;
        let n = data.content.len();
        let mut i: usize = 0;
        proof {
            lemma_entries_view(self.content@);
        }
        while i < n
            invariant
                i <= n,
                n == data.content@.len(),
                n == self.content@.len(),
                start == self@.content,
                start.len() == n,
                goal == self@.completed(id as int).content,
                data.data_dir == self.data_dir,
                forall|j: int| i <= j < n ==> data.content@[j] == self.content@[j],
                forall|j: int|
                    0 <= j < i ==> (data.content@[j].0 as int, (#[trigger] data.content@[j]).1@)
                        == goal[j],
                found <==> exists|a: int|
                    0 <= a < i && ((#[trigger] start[a]).1.daily_id == id || exists|b: int|
                        0 <= b < start[a].1.subtasks.len() && (#[trigger] start[a].1.subtasks[
                            b
                        ]).1.daily_id == id),
            decreases n - i,
        {
            let ghost root = self.content@[i as int].1;
            let ghost nested = root@.subtasks;
            let ghost found_before = found;
            let ghost held = data.content@;
            proof {
                lemma_entries_view(self.content@);
                lemma_entries_view(root.subtasks@);
                assert(start[i as int].1 == root@);
            }
            if data.content[i].1.daily_id == id {
                data.content[i].1.signifier = Signifier::Complete.value();
                found = true;
            }
            let ghost root_found = found;
            let m = data.content[i].1.subtasks.len();
            let mut j: usize = 0;
            while j < m
                invariant
                    j <= m,
                    i < n,
                    n == data.content@.len(),
                    n == self.content@.len(),
                    root == self.content@[i as int].1,
                    nested == root@.subtasks,
                    m == root.subtasks@.len(),
                    m == nested.len(),
                    m == data.content@[i as int].1.subtasks@.len(),
                    data.data_dir == self.data_dir,
                    data.content@[i as int].0 == self.content@[i as int].0,
                    data.content@[i as int].1.content_type == root.content_type,
                    data.content@[i as int].1.content == root.content,
                    data.content@[i as int].1.current_date == root.current_date,
                    data.content@[i as int].1.date_added == root.date_added,
                    data.content@[i as int].1.daily_id == root.daily_id,
                    data.content@[i as int].1.signifier@ == marked(root@, id as int).signifier,
                    held.len() == n,
                    forall|a: int| 0 <= a < n && a != i ==> data.content@[a] == held[a],
                    forall|b: int|
                        j <= b < m ==> data.content@[i as int].1.subtasks@[b] == root.subtasks@[b],
                    forall|b: int|
                        0 <= b < j ==> (
                            data.content@[i as int].1.subtasks@[b].0 as int,
                            (#[trigger] data.content@[i as int].1.subtasks@[b]).1@,
                        ) == marked_entries(nested, id as int)[b],
                    forall|b: int|
                        0 <= b < m ==> (#[trigger] nested[b]) == (
                            root.subtasks@[b].0 as int,
                            root.subtasks@[b].1@,
                        ),
                    found <==> (root_found || exists|b: int|
                        0 <= b < j && (#[trigger] nested[b]).1.daily_id == id),
                decreases m - j,
            {
                proof {
                    assert(nested[j as int] == (
                        root.subtasks@[j as int].0 as int,
                        root.subtasks@[j as int].1@,
                    ));
                }
                if data.content[i].1.subtasks[j].1.daily_id == id {
                    data.content[i].1.subtasks[j].1.signifier = Signifier::Complete.value();
                    found = true;
                }
                j += 1;
            }
            proof {
                lemma_entries_view(data.content@[i as int].1.subtasks@);
                assert(data.content@[i as int].1@.subtasks =~= marked_entries(nested, id as int));
                assert(data.content@[i as int].1@ == completed_record(root@, id as int));
                assert(goal[i as int] == (start[i as int].0, completed_record(root@, id as int)));
                assert forall|a: int| 0 <= a < i + 1 implies (
                    data.content@[a].0 as int,
                    (#[trigger] data.content@[a]).1@,
                ) == goal[a] by {
                    if a < i {
                        assert(data.content@[a] == held[a]);
                    }
                }
                if found {
                    if !found_before {
                        assert(start[i as int].1.daily_id == id || exists|b: int|
                            0 <= b < start[i as int].1.subtasks.len() && (
                            #[trigger] start[i as int].1.subtasks[b]).1.daily_id == id);
                    }
                }
            }
            i += 1;
        }
        proof {
            lemma_entries_view(data.content@);
            assert(data@.content =~= goal);
            assert(found == carries(start, id as int));
            if self@.well_formed() {
                lemma_completed_well_formed(self@, id as int);
            }
        }
        if found {
            Ok(data)
        } else {
            Err(BujoError::ReferenceNotFound)
        }
    }
}

} // verus!
