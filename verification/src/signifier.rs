//! The glyph that marks what a record is and whether it is done.

use vstd::prelude::*;

verus! {

/// The marker shown in front of a record.
///
/// A record carries the glyph of its kind until it is completed; from then
/// on it carries the glyph of `Complete`, whatever its kind.
#[derive(Debug, Clone, Copy, PartialEq, Eq, Structural)]
pub enum Signifier {
    Complete,
    Task,
    Note,
    Event,
}

impl Signifier {
    /// The glyph, as a sequence of characters.
    pub open spec fn glyph(self) -> Seq<char> {
        match self {
            Signifier::Complete => seq!['\u{00D7}'],
            Signifier::Task => seq!['\u{00B7}'],
            Signifier::Note => seq!['-'],
            Signifier::Event => seq!['\u{25CB}'],
        }
    }

    /// The kind of a record whose kind is written as `content_type`:
    /// a note, an event, and a task for every other text.
    pub open spec fn of_kind(content_type: Seq<char>) -> Signifier {
        if content_type == seq!['n', 'o', 't', 'e'] {
            Signifier::Note
        } else if content_type == seq!['e', 'v', 'e', 'n', 't'] {
            Signifier::Event
        } else {
            Signifier::Task
        }
    }

    /// The text under which the kind of a record is stored. A completed
    /// record keeps the text of its kind, so `Complete` has none of its own
    /// and is given that of a task.
    pub open spec fn kind_text(self) -> Seq<char> {
        match self {
            Signifier::Note => seq!['n', 'o', 't', 'e'],
            Signifier::Event => seq!['e', 'v', 'e', 'n', 't'],
            _ => seq!['t', 'a', 's', 'k'],
        }
    }

    /// Returns the glyph.
    pub fn value(&self) -> (s: String)
        ensures
            s@ == self.glyph(),
    {
        proof {
            reveal_strlit("\u{00D7}");
            reveal_strlit("\u{00B7}");
            reveal_strlit("-");
            reveal_strlit("\u{25CB}");
        }
        let s = match self {
            Signifier::Complete => String::from_str("\u{00D7}"),
            Signifier::Task => String::from_str("\u{00B7}"),
            Signifier::Note => String::from_str("-"),
            Signifier::Event => String::from_str("\u{25CB}"),
        };
        assert(s@ =~= self.glyph());
        s
    }

    /// Returns the text under which this kind is stored.
    pub fn kind_name(&self) -> (s: String)
        ensures
            s@ == self.kind_text(),
    {
        proof {
            reveal_strlit("note");
            reveal_strlit("event");
            reveal_strlit("task");
        }
        let s = match self {
            Signifier::Note => String::from_str("note"),
            Signifier::Event => String::from_str("event"),
            _ => String::from_str("task"),
        };
        assert(s@ =~= self.kind_text());
        s
    }

    /// Reads the kind of a record from the text that names it.
    pub fn from_kind(content_type: &String) -> (s: Signifier)
        ensures
            s == Signifier::of_kind(content_type@),
    {
        let note = Signifier::Note.kind_name();
        let event = Signifier::Event.kind_name();
        if *content_type == note {
            Signifier::Note
        } else if *content_type == event {
            Signifier::Event
        } else {
            Signifier::Task
        }
    }
}

} // verus!
