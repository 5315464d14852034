//! The cache of today's aggregate: empty at first, then valid for one day.
use vstd::prelude::*;

verus! {

/// The aggregate of one day as last read or written, and that day; `date`
/// is `None` until the first read or write.
pub struct NoteCache {
    pub text: String,
    pub date: Option<i64>,
}

impl NoteCache {
    pub fn new() -> (r: NoteCache)
        ensures
            r.text@ == Seq::<char>::empty(),
            r.date is None,
    {
        NoteCache { text: String::new(), date: None }
    }

    /// The cached text, when it is for `today` and not empty.
    pub fn lookup(&self, today: i64) -> (r: Option<String>)
        ensures
            r matches Some(t) ==> t@ == self.text@,
            r is Some <==> (self.date == Some(today) && self.text@.len() > 0),
    {
        match self.date {
            Some(d) => {
                if d == today && !self.text.as_str().is_empty() {
                    Some(self.text.clone())
                } else {
                    None
                }
            }
            None => None,
        }
    }

    /// Holds `text` as the aggregate of `day` from now on.
    pub fn refresh(&mut self, day: i64, text: String)
        ensures
            final(self).text == text,
            final(self).date == Some(day),
    {
        self.text = text;
        self.date = Some(day);
    }
}

} // verus!
