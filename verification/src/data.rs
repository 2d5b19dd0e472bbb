//! The journal: its root records under their stable keys, and the
//! operations that add, find and delete them.

use crate::clock::current_timestamp;
use crate::error::BujoError;
use crate::laws::{
    lemma_added_well_formed, lemma_with_subtask_well_formed, lemma_without_well_formed,
};
use crate::numbering::next_id;
use crate::record::{
    daily_ids_of, entries_view, keys_of, largest, lemma_entries_view, well_formed, BujoObject,
    RecordView,
};
use crate::signifier::Signifier;
use std::path::PathBuf;
use vstd::prelude::*;

verus! {

/// A path of the file system. The journal carries it and never looks into
/// it.
#[verifier::external_type_specification]
#[verifier::external_body]
pub struct ExPathBuf(PathBuf);

/// `Path::to_path_buf` of the standard library: the copy is the path it was
/// made from.
#[verifier::external_body]
fn copy_path(path: &PathBuf) -> (copy: PathBuf)
    ensures
        copy == *path,
{
    path.to_path_buf()
}

/// The journal.
///
/// `content` is a mapping kept in the order of insertion: each pair holds
/// the stable key of a root record and the record.
#[derive(Debug)]
pub struct Data {
    /// The root records under their stable keys.
    pub content: Vec<(i64, BujoObject)>,
    /// The directory in which the journal is kept.
    pub data_dir: PathBuf,
}

/// What a journal is, as plain mathematical values.
pub struct DataView {
    pub content: Seq<(int, RecordView)>,
    pub data_dir: PathBuf,
}

impl View for Data {
    type V = DataView;

    open spec fn view(&self) -> DataView {
        DataView { content: entries_view(self.content@), data_dir: self.data_dir }
    }
}

impl DataView {
    /// Whether the journal is a mapping at every depth: no key occurs twice
    /// among the root records, nor among the records nested under one
    /// parent. An empty journal is one, and every operation keeps it one.
    pub open spec fn well_formed(self) -> bool {
        well_formed(self.content)
    }
}

/// The position of the first record of `entries` with the key `key`.
pub open spec fn first_with_key(entries: Seq<(int, RecordView)>, key: int) -> Option<int>
    decreases entries.len(),
{
    if entries.len() == 0 {
        None
    } else {
        match first_with_key(entries.drop_last(), key) {
            Some(i) => Some(i),
            None => if entries.last().0 == key {
                Some(entries.len() - 1)
            } else {
                None
            },
        }
    }
}

/// The position of the first record of `entries` with the daily identifier
/// `id`.
pub open spec fn first_with_daily_id(entries: Seq<(int, RecordView)>, id: int) -> Option<int>
    decreases entries.len(),
{
    if entries.len() == 0 {
        None
    } else {
        match first_with_daily_id(entries.drop_last(), id) {
            Some(i) => Some(i),
            None => if entries.last().1.daily_id == id {
                Some(entries.len() - 1)
            } else {
                None
            },
        }
    }
}

/// `first_with_key` finds a record with the key, with none in front of it,
/// and finds none only where there is none.
pub proof fn lemma_first_with_key(entries: Seq<(int, RecordView)>, key: int)
    ensures
        match first_with_key(entries, key) {
            Some(i) => 0 <= i < entries.len() && entries[i].0 == key && forall|j: int|
                0 <= j < i ==> (#[trigger] entries[j]).0 != key,
            None => forall|j: int| 0 <= j < entries.len() ==> (#[trigger] entries[j]).0 != key,
        },
    decreases entries.len(),
{
    if entries.len() > 0 {
        let front = entries.drop_last();
        lemma_first_with_key(front, key);
        assert(forall|j: int| 0 <= j < front.len() ==> front[j] == entries[j]);
    }
}

/// `first_with_daily_id` finds a record with the identifier, with none in
/// front of it, and finds none only where there is none.
pub proof fn lemma_first_with_daily_id(entries: Seq<(int, RecordView)>, id: int)
    ensures
        match first_with_daily_id(entries, id) {
            Some(i) => 0 <= i < entries.len() && entries[i].1.daily_id == id && forall|j: int|
                0 <= j < i ==> (#[trigger] entries[j]).1.daily_id != id,
            None => forall|j: int|
                0 <= j < entries.len() ==> (#[trigger] entries[j]).1.daily_id != id,
        },
    decreases entries.len(),
{
    if entries.len() > 0 {
        let front = entries.drop_last();
        lemma_first_with_daily_id(front, id);
        assert(forall|j: int| 0 <= j < front.len() ==> front[j] == entries[j]);
    }
}

/// The position of the root record that a reference names: the first
/// record with the daily identifier `id` where `daily` holds, the first
/// record with the stable key `id` where it does not.
pub open spec fn resolved(entries: Seq<(int, RecordView)>, id: int, daily: bool) -> Option<int> {
    if daily {
        first_with_daily_id(entries, id)
    } else {
        first_with_key(entries, id)
    }
}

/// The key that the next record of `entries` is given: 0 in an empty
/// mapping, one more than the largest key in any other.
pub open spec fn next_key(entries: Seq<(int, RecordView)>) -> int {
    if entries.len() == 0 {
        0
    } else {
        largest(keys_of(entries)) + 1
    }
}

/// The word that marks a reference as a daily identifier.
pub open spec fn daily_word() -> Seq<char> {
    seq!['d', 'a', 'i', 'l', 'y']
}

/// Tells whether `id_type` marks a reference as a daily identifier.
pub fn is_daily(id_type: &String) -> (b: bool)
    ensures
        b == (id_type@ == daily_word()),
{
    proof {
        reveal_strlit("daily");
    }
    let word = String::from_str("daily");
    assert(word@ =~= daily_word());
    *id_type == word
}

/// Returns the largest key of `entries`, or 0 where there is none.
fn largest_key(entries: &Vec<(i64, BujoObject)>) -> (key: i64)
    ensures
        key == largest(keys_of(entries_view(entries@))),
{
    let ghost keys = keys_of(entries_view(entries@));
    proof {
        lemma_entries_view(entries@);
    }
    let n = entries.len();
    if n == 0 {
        return 0;
    }
    let mut key = entries[0].0;
    let mut i: usize = 1;
    assert(keys.take(1).drop_last() =~= Seq::<int>::empty());
    while i < n
        invariant
            1 <= i <= n,
            n == entries@.len(),
            keys == keys_of(entries_view(entries@)),
            keys.len() == n,
            forall|j: int| 0 <= j < n ==> keys[j] == (#[trigger] entries@[j]).0,
            key == largest(keys.take(i as int)),
        decreases n - i,
    {
        proof {
            assert(keys.take(i + 1).drop_last() =~= keys.take(i as int));
        }
        if entries[i].0 > key {
            key = entries[i].0;
        }
        i += 1;
    }
    assert(keys.take(n as int) =~= keys);
    key
}

impl Data {
    /// Makes an empty journal kept in `bujo_data_dir`.
    pub fn new(bujo_data_dir: &PathBuf) -> (data: Data)
        ensures
            data@.content == Seq::<(int, RecordView)>::empty(),
            data@.data_dir == *bujo_data_dir,
            data@.well_formed(),
    {
        let data = Data { content: Vec::new(), data_dir: copy_path(bujo_data_dir) };
        assert(data@.content =~= Seq::<(int, RecordView)>::empty());
        data
    }

    /// Returns the largest stable key, or 0 where the journal is empty.
    pub fn get_max_key(&self) -> (key: i64)
        ensures
            key == largest(keys_of(self@.content)),
    {
        largest_key(&self.content)
    }

    /// Returns the largest key among the records in `parent_hashmap`, the
    /// records nested under one parent, or 0 where there is none.
    pub fn get_max_subtask_key(parent_hashmap: &Vec<(i64, BujoObject)>) -> (key: i64)
        ensures
            key == largest(keys_of(entries_view(parent_hashmap@))),
    {
        largest_key(parent_hashmap)
    }

    /// Returns the largest daily identifier among the root records, or 0
    /// where the journal is empty.
    pub fn get_max_daily_id(&self) -> (id: i64)
        ensures
            id == largest(daily_ids_of(self@.content)),
    {
        let ghost ids = daily_ids_of(self@.content);
        proof {
            lemma_entries_view(self.content@);
        }
        let n = self.content.len();
        if n == 0 {
            return 0;
        }
        let mut id = self.content[0].1.daily_id;
        let mut i: usize = 1;
        assert(ids.take(1).drop_last() =~= Seq::<int>::empty());
        while i < n
            invariant
                1 <= i <= n,
                n == self.content@.len(),
                ids == daily_ids_of(self@.content),
                ids.len() == n,
                forall|j: int| 0 <= j < n ==> ids[j] == (#[trigger] self.content@[j]).1.daily_id,
                id == largest(ids.take(i as int)),
            decreases n - i,
        {
            proof {
                assert(ids.take(i + 1).drop_last() =~= ids.take(i as int));
            }
            if self.content[i].1.daily_id > id {
                id = self.content[i].1.daily_id;
            }
            i += 1;
        }
        assert(ids.take(n as int) =~= ids);
        id
    }

    /// Returns the position of the root record that the reference `id`
    /// names, as `resolved` defines it.
    pub fn find(&self, id: i64, daily: bool) -> (at: Option<usize>)
        ensures
            match at {
                Some(i) => i < self.content@.len() && resolved(self@.content, id as int, daily)
                    == Some(i as int),
                None => resolved(self@.content, id as int, daily) == None::<int>,
            },
    {
        let ghost entries = self@.content;
        proof {
            lemma_entries_view(self.content@);
        }
        let n = self.content.len();
        let mut i: usize = 0;
        while i < n
            invariant
                i <= n,
                n == self.content@.len(),
                entries == self@.content,
                entries.len() == n,
                forall|j: int|
                    0 <= j < n ==> (#[trigger] entries[j]) == (
                        self.content@[j].0 as int,
                        self.content@[j].1@,
                    ),
                daily ==> forall|j: int| 0 <= j < i ==> (#[trigger] entries[j]).1.daily_id != id,
                !daily ==> forall|j: int| 0 <= j < i ==> (#[trigger] entries[j]).0 != id,
            decreases n - i,
        {
            let found = if daily {
                self.content[i].1.daily_id == id
            } else {
                self.content[i].0 == id
            };
            proof {
                assert(entries[i as int] == (
                    self.content@[i as int].0 as int,
                    self.content@[i as int].1@,
                ));
                lemma_first_with_key(entries, id as int);
                lemma_first_with_daily_id(entries, id as int);
            }
            if found {
                return Some(i);
            }
            i += 1;
        }
        proof {
            lemma_first_with_key(entries, id as int);
            lemma_first_with_daily_id(entries, id as int);
        }
        None
    }

    /// Resolves a reference to the stable key of a root record.
    ///
    /// Where `id_type` is `daily`, `id` is a daily identifier and names the
    /// first root record that carries it; nested records are not searched.
    /// With every other `id_type`, `id` is itself a stable key. A reference
    /// that names no root record is refused with `ReferenceNotFound`.
    pub fn get_primary_key(&self, id: &i64, id_type: String) -> (key: Result<i64, BujoError>)
        ensures
            match key {
                Ok(k) => resolved(self@.content, *id as int, id_type@ == daily_word())
                    matches Some(i) && self@.content[i].0 == k,
                Err(e) => e == BujoError::ReferenceNotFound && resolved(
                    self@.content,
                    *id as int,
                    id_type@ == daily_word(),
                ) is None,
            },
    {
        let daily = is_daily(&id_type);
        proof {
            lemma_entries_view(self.content@);
        }
        match self.find(*id, daily) {
            Some(i) => Ok(self.content[i].0),
            None => Err(BujoError::ReferenceNotFound),
        }
    }
}

/// A record as it is made: of the kind that `content_type` names, open, with
/// the text `content`, made at the instant `now` and shown under it, with
/// nothing nested under it.
pub open spec fn fresh_record(
    content_type: Seq<char>,
    content: Seq<char>,
    now: int,
    daily_id: int,
) -> RecordView {
    let kind = Signifier::of_kind(content_type);
    RecordView {
        content_type: kind.kind_text(),
        content,
        signifier: kind.glyph(),
        current_date: now,
        date_added: now,
        daily_id,
        subtasks: Seq::empty(),
    }
}

impl DataView {
    /// The journal after a root record has been added at the instant `now`:
    /// the new record stands last, under the next stable key, with the daily
    /// identifier after the largest among the root records.
    pub open spec fn added(self, content_type: Seq<char>, content: Seq<char>, now: int) -> DataView {
        DataView {
            content: self.content.push(
                (
                    next_key(self.content),
                    fresh_record(
                        content_type,
                        content,
                        now,
                        next_id(largest(daily_ids_of(self.content))),
                    ),
                ),
            ),
            ..self
        }
    }

    /// The journal after a record has been nested under the root record at
    /// position `at`, at the instant `now`: the new record stands last among
    /// the nested records, under one more than their largest key, with the
    /// largest daily identifier among the root records.
    pub open spec fn with_subtask(
        self,
        at: int,
        content_type: Seq<char>,
        content: Seq<char>,
        now: int,
    ) -> DataView {
        let parent = self.content[at].1;
        let child = fresh_record(content_type, content, now, largest(daily_ids_of(self.content)));
        let nested = parent.subtasks.push((largest(keys_of(parent.subtasks)) + 1, child));
        DataView {
            content: self.content.update(
                at,
                (self.content[at].0, RecordView { subtasks: nested, ..parent }),
            ),
            ..self
        }
    }

    /// The journal without the root record at position `at` and everything
    /// nested under it.
    pub open spec fn without(self, at: int) -> DataView {
        DataView { content: self.content.remove(at), ..self }
    }
}

/// Makes a record of the kind that `content_type` names.
fn make_record(content_type: &String, content: String, now: i64, daily_id: i64) -> (record:
    BujoObject)
    ensures
        record@ == fresh_record(content_type@, content@, now as int, daily_id as int),
{
    let kind = Signifier::from_kind(content_type);
    let record = BujoObject {
        content_type: kind.kind_name(),
        content,
        signifier: kind.value(),
        current_date: now,
        date_added: now,
        daily_id,
        subtasks: Vec::new(),
    };
    assert(record@.subtasks =~= Seq::<(int, RecordView)>::empty());
    record
}

impl Data {
    /// Adds a root record at the instant `now` and returns its stable key.
    ///
    /// The key is 0 in an empty journal and one more than the largest key in
    /// any other, so the largest key must leave room for one more. A key is
    /// given again after the record that had it, then the largest, has been
    /// deleted.
    pub fn add_object_at(
        &mut self,
        content_temp: String,
        content_type_temp: String,
        now: i64,
    ) -> (key: i64)
        requires
            largest(keys_of(old(self)@.content)) < i64::MAX,
        ensures
            final(self)@ == old(self)@.added(content_type_temp@, content_temp@, now as int),
            key == next_key(old(self)@.content),
            old(self)@.well_formed() ==> final(self)@.well_formed(),
    {
        proof {
            if old(self)@.well_formed() {
                lemma_added_well_formed(old(self)@, content_type_temp@, content_temp@, now as int);
            }
        }
        let key = if self.content.len() == 0 {
            0
        } else {
            self.get_max_key() + 1
        };
        let top = self.get_max_daily_id();
        let daily_key = if top < i64::MAX {
            top + 1
        } else {
            top
        };
        let record = make_record(&content_type_temp, content_temp, now, daily_key);
        proof {
            lemma_entries_view(self.content@);
        }
        self.content.push((key, record));
        proof {
            lemma_entries_view(self.content@);
            assert(final(self)@.content =~= old(self)@.added(
                content_type_temp@,
                content_temp@,
                now as int,
            ).content);
        }
        key
    }

    /// Adds a root record, made now and shown under today, and returns its
    /// stable key.
    ///
    /// The record is of the kind that `content_type_temp` names: `note`,
    /// `event`, and a task for every other text. The text of the record is
    /// taken as it is; it may be empty.
    pub fn add_object(&mut self, content_temp: String, content_type_temp: String) -> (key: i64)
        requires
            largest(keys_of(old(self)@.content)) < i64::MAX,
        ensures
            exists|now: i64|
                final(self)@ == #[trigger] old(self)@.added(
                    content_type_temp@,
                    content_temp@,
                    now as int,
                ),
            key == next_key(old(self)@.content),
            old(self)@.well_formed() ==> final(self)@.well_formed(),
    {
        let now = current_timestamp();
        self.add_object_at(content_temp, content_type_temp, now)
    }

    /// Nests a record, made at the instant `now`, under the root record that
    /// the reference names.
    ///
    /// The new record is given one more than the largest key among the
    /// records nested under that root, which must leave room for one more.
    pub fn add_subtask_at(
        self,
        id: i64,
        id_type: String,
        content_temp: String,
        content_type_temp: String,
        now: i64,
    ) -> (result: Result<Data, BujoError>)
        requires
            resolved(self@.content, id as int, id_type@ == daily_word()) matches Some(i) ==> largest(
                keys_of(self@.content[i].1.subtasks),
            ) < i64::MAX,
        ensures
            match result {
                Ok(data) => resolved(self@.content, id as int, id_type@ == daily_word())
                    matches Some(i) && data@ == self@.with_subtask(
                    i,
                    content_type_temp@,
                    content_temp@,
                    now as int,
                ),
                Err(e) => e == BujoError::ReferenceNotFound && resolved(
                    self@.content,
                    id as int,
                    id_type@ == daily_word(),
                ) is None,
            },
            result matches Ok(data) ==> (self@.well_formed() ==> data@.well_formed()),
    {
        let ghost before = self@;
        let mut data = self;
        let daily = is_daily(&id_type);
        match data.find(id, daily) {
            Some(at) => {
                let top = data.get_max_daily_id();
                proof {
                    lemma_entries_view(data.content@);
                }
                let key = Data::get_max_subtask_key(&data.content[at].1.subtasks) + 1;
                let record = make_record(&content_type_temp, content_temp, now, top);
                let ghost held = data.content@;
                let ghost nested = data.content@[at as int].1.subtasks@;
                data.content[at].1.subtasks.push((key, record));
                proof {
                    lemma_entries_view(held);
                    lemma_entries_view(data.content@);
                    lemma_entries_view(nested);
                    lemma_entries_view(data.content@[at as int].1.subtasks@);
                    let wanted = before.with_subtask(
                        at as int,
                        content_type_temp@,
                        content_temp@,
                        now as int,
                    );
                    assert(data.content@[at as int].1@.subtasks =~= wanted.content[at as int].1.subtasks);
                    assert(data@.content =~= wanted.content);
                    if before.well_formed() {
                        lemma_with_subtask_well_formed(
                            before,
                            at as int,
                            content_type_temp@,
                            content_temp@,
                            now as int,
                        );
                    }
                }
                Ok(data)
            },
            None => Err(BujoError::ReferenceNotFound),
        }
    }

    /// Nests a record, made now and shown under today, under the root
    /// record that the reference names. Only a root record can be named:
    /// nested records are not searched.
    pub fn add_subtask(
        self,
        id: i64,
        id_type: String,
        content_temp: String,
        content_type_temp: String,
    ) -> (result: Result<Data, BujoError>)
        requires
            resolved(self@.content, id as int, id_type@ == daily_word()) matches Some(i) ==> largest(
                keys_of(self@.content[i].1.subtasks),
            ) < i64::MAX,
        ensures
            match result {
                Ok(data) => resolved(self@.content, id as int, id_type@ == daily_word())
                    matches Some(i) && exists|now: i64|
                    data@ == #[trigger] self@.with_subtask(
                        i,
                        content_type_temp@,
                        content_temp@,
                        now as int,
                    ),
                Err(e) => e == BujoError::ReferenceNotFound && resolved(
                    self@.content,
                    id as int,
                    id_type@ == daily_word(),
                ) is None,
            },
            result matches Ok(data) ==> (self@.well_formed() ==> data@.well_formed()),
    {
        let now = current_timestamp();
        self.add_subtask_at(id, id_type, content_temp, content_type_temp, now)
    }

    /// Deletes the root record with the stable key `id` and everything
    /// nested under it. A key that no root record has is refused with
    /// `ReferenceNotFound`, and the journal is left as it is.
    pub fn delete_object(&mut self, id: &i64) -> (result: Result<(), BujoError>)
        ensures
            match first_with_key(old(self)@.content, *id as int) {
                Some(i) => result is Ok && final(self)@ == old(self)@.without(i),
                None => result == Err::<(), BujoError>(BujoError::ReferenceNotFound) && final(self)@
                    == old(self)@,
            },
            old(self)@.well_formed() ==> final(self)@.well_formed(),
            old(self)@.well_formed() ==> first_with_key(final(self)@.content, *id as int) is None,
    {
        match self.find(*id, false) {
            Some(at) => {
                proof {
                    lemma_entries_view(self.content@);
                }
                let _ = self.content.remove(at);
                proof {
                    lemma_entries_view(self.content@);
                    assert(final(self)@.content =~= old(self)@.without(at as int).content);
                    lemma_first_with_key(old(self)@.content, *id as int);
                    lemma_first_with_key(final(self)@.content, *id as int);
                    if old(self)@.well_formed() {
                        lemma_without_well_formed(old(self)@, at as int);
                    }
                }
                Ok(())
            },
            None => Err(BujoError::ReferenceNotFound),
        }
    }
}

} // verus!
