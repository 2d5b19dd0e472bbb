//! A journal record, the tree that records form, and their mathematical
//! view.

use vstd::prelude::*;

verus! {

/// One entry of the journal: a task, a note or an event, with the records
/// nested under it.
///
/// `subtasks` is a mapping kept in the order of insertion: each pair holds
/// the key of a nested record, unique among the records of the same parent,
/// and the record itself.
#[derive(Debug)]
pub struct BujoObject {
    /// The kind of the record: `task`, `note` or `event`.
    pub content_type: String,
    /// The text that the user wrote.
    pub content: String,
    /// The glyph shown in front of the record.
    pub signifier: String,
    /// The instant of the day under which the record is shown.
    pub current_date: i64,
    /// The instant at which the record was made.
    pub date_added: i64,
    /// The identifier of the record in the view of the current day; 0 where
    /// the record is not part of that view.
    pub daily_id: i64,
    /// The records nested under this one.
    pub subtasks: Vec<(i64, BujoObject)>,
}

/// What a record is, as plain mathematical values.
pub struct RecordView {
    pub content_type: Seq<char>,
    pub content: Seq<char>,
    pub signifier: Seq<char>,
    pub current_date: int,
    pub date_added: int,
    pub daily_id: int,
    pub subtasks: Seq<(int, RecordView)>,
}

/// The view of a sequence of keyed records: the same keys in the same
/// order, each with the view of its record.
pub open spec fn entries_view(entries: Seq<(i64, BujoObject)>) -> Seq<(int, RecordView)>
    decreases entries,
{
    Seq::new(
        entries.len(),
        |i: int|
            if 0 <= i < entries.len() {
                (entries[i].0 as int, entries[i].1.view())
            } else {
                arbitrary()
            },
    )
}

impl View for BujoObject {
    type V = RecordView;

    open spec fn view(&self) -> RecordView
        decreases self,
    {
        RecordView {
            content_type: self.content_type@,
            content: self.content@,
            signifier: self.signifier@,
            current_date: self.current_date as int,
            date_added: self.date_added as int,
            daily_id: self.daily_id as int,
            subtasks: entries_view(self.subtasks@),
        }
    }
}

/// The keys of a sequence of keyed records, in order.
pub open spec fn keys_of(entries: Seq<(int, RecordView)>) -> Seq<int> {
    Seq::new(entries.len(), |i: int| entries[i].0)
}

/// The days under which a sequence of keyed records is shown, in order.
pub open spec fn dates_of(entries: Seq<(int, RecordView)>) -> Seq<int> {
    Seq::new(entries.len(), |i: int| entries[i].1.current_date)
}

/// The daily identifiers of a sequence of keyed records, in order.
pub open spec fn daily_ids_of(entries: Seq<(int, RecordView)>) -> Seq<int> {
    Seq::new(entries.len(), |i: int| entries[i].1.daily_id)
}

/// Whether no key occurs twice in `entries`.
pub open spec fn keys_unique(entries: Seq<(int, RecordView)>) -> bool {
    forall|i: int, j: int|
        0 <= i < j < entries.len() ==> (#[trigger] entries[i]).0 != (#[trigger] entries[j]).0
}

/// Whether some record of `entries` has the key `key`.
pub open spec fn has_key(entries: Seq<(int, RecordView)>, key: int) -> bool {
    exists|i: int| 0 <= i < entries.len() && (#[trigger] entries[i]).0 == key
}

/// The largest number of `s`, or 0 where `s` is empty.
pub open spec fn largest(s: Seq<int>) -> int
    decreases s.len(),
{
    if s.len() == 0 {
        0
    } else if s.len() == 1 {
        s[0]
    } else if largest(s.drop_last()) >= s.last() {
        largest(s.drop_last())
    } else {
        s.last()
    }
}

/// `largest` is at least every number of a sequence, and is one of them
/// unless the sequence is empty.
pub proof fn lemma_largest(s: Seq<int>)
    ensures
        s.len() == 0 ==> largest(s) == 0,
        s.len() > 0 ==> s.contains(largest(s)),
        forall|i: int| 0 <= i < s.len() ==> s[i] <= largest(s),
    decreases s.len(),
{
    if s.len() == 1 {
        assert(s[0] == largest(s));
    } else if s.len() > 1 {
        let front = s.drop_last();
        lemma_largest(front);
        if largest(front) >= s.last() {
            let j = choose|j: int| 0 <= j < front.len() && front[j] == largest(front);
            assert(s[j] == largest(s));
        } else {
            assert(s[s.len() - 1] == largest(s));
        }
        assert forall|i: int| 0 <= i < s.len() implies s[i] <= largest(s) by {
            if i < front.len() {
                assert(front[i] == s[i]);
            }
        }
    }
}

/// Whether the keys of the records nested under `record` are unique under
/// each parent, at every depth.
pub open spec fn nested_keys_unique(record: RecordView) -> bool
    decreases record,
{
    &&& keys_unique(record.subtasks)
    &&& forall|i: int|
        0 <= i < record.subtasks.len() ==> nested_keys_unique((#[trigger] record.subtasks[i]).1)
}

/// Whether `entries` is a mapping at every depth: no key occurs twice among
/// the records of one parent.
pub open spec fn well_formed(entries: Seq<(int, RecordView)>) -> bool {
    &&& keys_unique(entries)
    &&& forall|i: int| 0 <= i < entries.len() ==> nested_keys_unique((#[trigger] entries[i]).1)
}

/// The view of a sequence of keyed records has the length of the sequence
/// and views it element by element.
pub proof fn lemma_entries_view(entries: Seq<(i64, BujoObject)>)
    ensures
        entries_view(entries).len() == entries.len(),
        forall|i: int|
            0 <= i < entries.len() ==> #[trigger] entries_view(entries)[i] == (
                entries[i].0 as int,
                entries[i].1@,
            ),
{
}

impl BujoObject {
    /// Returns a copy of the record and of everything nested under it.
    pub fn copy(&self) -> (twin: BujoObject)
        ensures
            twin@ == self@,
        decreases self,
    {
        let mut subtasks: Vec<(i64, BujoObject)> = Vec::new();
        let n = self.subtasks.len();
        let mut i: usize = 0;
        while i < n
            invariant
                i <= n,
                n == self.subtasks@.len(),
                subtasks@.len() == i,
                forall|j: int|
                    0 <= j < i ==> (#[trigger] subtasks@[j]).0 == self.subtasks@[j].0
                        && subtasks@[j].1@ == self.subtasks@[j].1@,
            decreases n - i,
        {
            let nested = self.subtasks[i].1.copy();
            subtasks.push((self.subtasks[i].0, nested));
            i += 1;
        }
        proof {
            lemma_entries_view(subtasks@);
            lemma_entries_view(self.subtasks@);
            assert(entries_view(subtasks@) =~= entries_view(self.subtasks@));
        }
        BujoObject {
            content_type: self.content_type.clone(),
            content: self.content.clone(),
            signifier: self.signifier.clone(),
            current_date: self.current_date,
            date_added: self.date_added,
            daily_id: self.daily_id,
            subtasks,
        }
    }
}

} // verus!
