//! One captured note.
use vstd::prelude::*;
use crate::clock::{rfc3339_reading, Stamp, MAX_UTC, MIN_UTC};

verus! {

/// A note as the entry table stores it: its identity, its text, when it was
/// created and last changed, and whether it came from the quick-capture window.
#[derive(Clone, Debug)]
pub struct NoteEntry {
    pub id: i64,
    pub content: String,
    pub created_at: Stamp,
    pub updated_at: Stamp,
    pub is_quick_capture: bool,
}

impl NoteEntry {
    pub open spec fn wf(&self) -> bool {
        self.created_at.wf() && self.updated_at.wf()
    }

    /// A new entry: created and updated at `at`.
    pub fn new(id: i64, content: String, at: Stamp, is_quick_capture: bool) -> (r: NoteEntry)
        ensures
            r == (NoteEntry { id, content, created_at: at, updated_at: at, is_quick_capture }),
    {
        NoteEntry { id, content, created_at: at, updated_at: at, is_quick_capture }
    }

    /// A field-by-field copy.
    pub fn duplicate(&self) -> (r: NoteEntry)
        ensures
            r == *self,
    {
        NoteEntry {
            id: self.id,
            content: self.content.clone(),
            created_at: self.created_at,
            updated_at: self.updated_at,
            is_quick_capture: self.is_quick_capture,
        }
    }
}

/// The instant of a stored timestamp: the UTC second it reads as, or the
/// epoch where it is missing, not RFC 3339, or out of range.
pub open spec fn stored_utc(s: Option<String>) -> i64 {
    match s {
        Some(t) => match rfc3339_reading(t@) {
            Some(p) => if MIN_UTC <= p.0 <= MAX_UTC {
                p.0
            } else {
                0
            },
            None => 0,
        },
        None => 0,
    }
}

fn stored_stamp(s: &Option<String>) -> (r: Stamp)
    ensures
        r.wf(),
        r.utc == stored_utc(*s),
{
    let epoch = Stamp { utc: 0, offset: 0 };
    match s {
        Some(t) => match Stamp::from_rfc3339(t.as_str()) {
            Some(st) => st,
            None => epoch,
        },
        None => epoch,
    }
}

impl NoteEntry {
    /// An entry from a stored row whose columns may be missing or
    /// unreadable. Such a column takes a default instead of failing the
    /// row: identity 0, empty content, the epoch for a timestamp, and not
    /// from quick capture. The row is kept; only those fields are defaulted.
    pub fn from_row(
        id: Option<i64>,
        content: Option<String>,
        created_at: Option<String>,
        updated_at: Option<String>,
        is_quick_capture: Option<bool>,
    ) -> (r: NoteEntry)
        ensures
            r.wf(),
            r.id == (match id {
                Some(i) => i,
                None => 0,
            }),
            r.content@ == (match content {
                Some(c) => c@,
                None => Seq::<char>::empty(),
            }),
            r.created_at.utc == stored_utc(created_at),
            r.updated_at.utc == stored_utc(updated_at),
            r.is_quick_capture == (match is_quick_capture {
                Some(q) => q,
                None => false,
            }),
    {
        let created = stored_stamp(&created_at);
        let updated = stored_stamp(&updated_at);
        NoteEntry {
            id: match id {
                Some(i) => i,
                None => 0,
            },
            content: match content {
                Some(c) => c,
                None => String::new(),
            },
            created_at: created,
            updated_at: updated,
            is_quick_capture: match is_quick_capture {
                Some(q) => q,
                None => false,
            },
        }
    }
}

} // verus!
