//! The note store: today's aggregate over one of two backends, a cache of it,
//! and the writes that each mutation hands to durable storage.
//!
//! Each mutation is planned first (`plan_*`, which changes nothing) and then
//! applied (`apply`). A caller that persists the planned write in between
//! applies it only once storage has taken it, so a failed write leaves the
//! store as it was.
use std::collections::HashMap;
use vstd::prelude::*;
use crate::cache::NoteCache;
use crate::clock::{date_label, date_label_of, local_day, Stamp, MAX_DAY, MAX_OFFSET, MIN_DAY, MIN_UTC};
use crate::entry::NoteEntry;
use crate::format::{entries_text, format_line, line_of, nonblank_lines, text_contents, text_lines, text_to_contents, views};
use crate::table::{clip, in_window, on_day, other_than, revised_rows, EntryTable};
use crate::text::{chars_of, push_all, string_of};

verus! {

broadcast use vstd::std_specs::hash::group_hash_axioms;

/// Where the notes live: one text per local day, or a table of entries.
pub enum Backend {
    Files(HashMap<i64, String>),
    Entries(EntryTable),
}

/// The stored text of a day; a day without one reads as empty.
pub open spec fn file_text(m: Map<i64, String>, day: int) -> Seq<char> {
    if m.contains_key(day as i64) {
        m[day as i64]@
    } else {
        Seq::<char>::empty()
    }
}

/// `line` added as the last line of `t`.
pub open spec fn appended(t: Seq<char>, line: Seq<char>) -> Seq<char> {
    if t.len() == 0 {
        line
    } else {
        t + seq!['\n'] + line
    }
}

impl Backend {
    pub open spec fn wf(&self) -> bool {
        match self {
            Backend::Files(_) => true,
            Backend::Entries(t) => t.wf(),
        }
    }

    /// The aggregate of local day `day`.
    pub open spec fn day_text(&self, day: int) -> Seq<char> {
        match self {
            Backend::Files(m) => file_text(m@, day),
            Backend::Entries(t) => t.day_text(day),
        }
    }

    pub fn read_day(&self, day: i64) -> (r: String)
        requires
            self.wf(),
        ensures
            r@ == self.day_text(day as int),
    {
        match self {
            Backend::Files(m) => match m.get(&day) {
                Some(t) => t.clone(),
                None => String::new(),
            },
            Backend::Entries(t) => t.day_text_of(day),
        }
    }
}

/// A durable write, for the storage behind the store to perform.
pub enum Write {
    /// Overwrite the text of a day.
    Day { day: i64, text: String },
    /// Add one entry.
    Insert { entry: NoteEntry },
    /// Delete every entry of a day, then add these.
    ReplaceDay { day: i64, entries: Vec<NoteEntry> },
    /// Delete the entry with this identity.
    Remove { id: i64 },
    /// Give the entry with this identity new content, updated at `at`.
    Update { id: i64, content: String, at: Stamp },
}

/// A page of entries, newest first, and how many there are in all.
pub struct NotesPage {
    pub notes: Vec<NoteEntry>,
    pub total_count: usize,
}

/// Why an operation did not take place.
#[derive(Debug)]
pub enum StoreError {
    /// Durable storage could not be read or written.
    StorageUnavailable(String),
    /// No entry has this identity.
    NotFound(i64),
    /// The operation needs the entry backend.
    Unsupported,
    /// The entry table has no identities left.
    Full,
}

/// The aggregate to broadcast, and the windows to send it to.
pub struct Notice {
    pub targets: Vec<String>,
    pub payload: String,
}

/// The effect of `w` on backend `b`, giving `c`.
pub open spec fn applied(b: Backend, w: Write, c: Backend) -> bool {
    match (b, w, c) {
        (Backend::Files(m), Write::Day { day, text }, Backend::Files(m2)) => m2@ == m@.insert(day, text),
        (Backend::Entries(t), Write::Insert { entry }, Backend::Entries(t2)) => {
            &&& t2.next_id == t.next_id + 1
            &&& exists|p: int|
                {
                    &&& 0 <= p <= t.rows@.len()
                    &&& t2.rows@ == t.rows@.insert(p, entry)
                    &&& forall|k: int| 0 <= k < p ==> (#[trigger] t.rows@[k]).created_at.utc <= entry.created_at.utc
                    &&& forall|k: int|
                        p <= k < t.rows@.len() ==> (#[trigger] t.rows@[k]).created_at.utc > entry.created_at.utc
                }
        },
        (Backend::Entries(t), Write::ReplaceDay { day, entries }, Backend::Entries(t2)) => {
            &&& t2.next_id == t.next_id + entries@.len()
            &&& t2.rows@.filter(on_day(day as int)) == entries@
            &&& forall|d: int|
                d != day ==> #[trigger] t2.rows@.filter(on_day(d)) == t.rows@.filter(on_day(d))
        },
        (Backend::Entries(t), Write::Remove { id }, Backend::Entries(t2)) => {
            &&& t2.next_id == t.next_id
            &&& t2.rows@ == t.rows@.filter(other_than(id))
        },
        (Backend::Entries(t), Write::Update { id, content, at }, Backend::Entries(t2)) => {
            &&& t2.next_id == t.next_id
            &&& t2.rows@ == revised_rows(t.rows@, id, content, at)
        },
        _ => false,
    }
}

/// Copies of the strings, in order.
fn copy_strings(v: &Vec<String>) -> (r: Vec<String>)
    ensures
        views(r@) == views(v@),
{
    let mut r: Vec<String> = Vec::new();
    let mut i: usize = 0;
    while i < v.len()
        invariant
            i <= v@.len(),
            r@.len() == i,
            forall|k: int| 0 <= k < i ==> (#[trigger] r@[k])@ == v@[k]@,
        decreases v@.len() - i,
    {
        r.push(v[i].clone());
        i = i + 1;
    }
    assert(views(r@) =~= views(v@));
    r
}

/// Which earlier notes `recent_notes` gathers.
#[derive(Clone, Copy, Debug, PartialEq, Eq)]
pub enum RecentPolicy {
    /// The local days `today - first` back to `today - (last - 1)`:
    /// `Days { first: 1, last: 3 }` is yesterday and the day before.
    Days { first: u32, last: u32 },
    /// The notes of the last `hours` hours, grouped by local day. Day texts
    /// carry no time per line, so there the days that the window touches
    /// are taken whole.
    Hours { hours: u32 },
}

/// The notes of one earlier day: its day number, its `YYYY-MM-DD` date, its
/// aggregate, and the non-blank lines of that aggregate.
pub struct RecentNote {
    pub day: i64,
    pub date: String,
    pub content: String,
    pub lines: Vec<String>,
}

/// The earliest instant of an hour window of `hours` ending at `now`.
pub open spec fn window_start(now: Stamp, hours: int) -> int {
    now.utc - hours * 3600
}

/// The earliest local day on which an instant at or after `from` can fall,
/// whatever its offset.
pub open spec fn earliest_day(from: int) -> int {
    local_day(Stamp { utc: if from < MIN_UTC { MIN_UTC } else { from as i64 }, offset: -MAX_OFFSET as i32 })
}

/// For a policy at `now`: the range `lo..hi` of days back from today, and the
/// earliest instant that counts.
pub open spec fn policy_span(policy: RecentPolicy, now: Stamp) -> (int, int, int) {
    match policy {
        RecentPolicy::Days { first, last } => (first as int, last as int, i64::MIN as int),
        RecentPolicy::Hours { hours } => {
            let from = window_start(now, hours as int);
            (0, local_day(now) - earliest_day(from) + 1, from)
        },
    }
}

/// The store: a backend, the cache of one day's aggregate, and the windows
/// that hear of every change.
pub struct NoteStore {
    pub backend: Backend,
    pub cache: NoteCache,
    pub windows: Vec<String>,
}

impl NoteStore {
    /// The backend is well formed, and the cache, once filled, holds the
    /// aggregate of its day.
    pub open spec fn wf(&self) -> bool {
        &&& self.backend.wf()
        &&& self.cache.date matches Some(d) ==> self.cache.text@ == self.backend.day_text(d as int)
    }

    /// The aggregate of local day `day`.
    pub open spec fn day_text(&self, day: int) -> Seq<char> {
        self.backend.day_text(day)
    }

    pub open spec fn is_entries(&self) -> bool {
        self.backend is Entries
    }

    /// The rows of the entry table (none for the file backend).
    pub open spec fn rows(&self) -> Seq<NoteEntry> {
        match self.backend {
            Backend::Entries(t) => t.rows@,
            Backend::Files(_) => Seq::<NoteEntry>::empty(),
        }
    }

    /// The identity that the next entry will get.
    pub open spec fn next_id(&self) -> i64 {
        match self.backend {
            Backend::Entries(t) => t.next_id,
            Backend::Files(_) => 0,
        }
    }

    /// Can `w` be applied here: it fits the backend, and new entries carry
    /// the identities that the table hands out next.
    pub open spec fn fits(&self, w: Write) -> bool {
        match (self.backend, w) {
            (Backend::Files(_), Write::Day { .. }) => true,
            (Backend::Entries(t), Write::Insert { entry }) => {
                &&& t.has_room(1)
                &&& entry.id == t.next_id
                &&& entry.created_at.wf()
                &&& entry.updated_at == entry.created_at
            },
            (Backend::Entries(t), Write::ReplaceDay { day, entries }) => {
                &&& t.has_room(entries@.len() as int)
                &&& EntryTable::fresh_batch(entries@, day as int, t.next_id)
            },
            (Backend::Entries(_), Write::Remove { .. }) => true,
            (Backend::Entries(_), Write::Update { at, .. }) => at.wf(),
            _ => false,
        }
    }

    /// An empty store over day texts.
    pub fn with_files(windows: Vec<String>) -> (r: NoteStore)
        ensures
            r.wf(),
            !r.is_entries(),
            forall|d: int| #[trigger] r.day_text(d) == Seq::<char>::empty(),
            r.cache.date is None,
            r.windows == windows,
    {
        NoteStore { backend: Backend::Files(HashMap::new()), cache: NoteCache::new(), windows }
    }

    /// An empty store over an entry table.
    pub fn with_entries(windows: Vec<String>) -> (r: NoteStore)
        ensures
            r.wf(),
            r.is_entries(),
            r.rows() == Seq::<NoteEntry>::empty(),
            r.next_id() == 1,
            forall|d: int| #[trigger] r.day_text(d) == Seq::<char>::empty(),
            r.cache.date is None,
            r.windows == windows,
    {
        let r = NoteStore { backend: Backend::Entries(EntryTable::new()), cache: NoteCache::new(), windows };
        proof {
            assert forall|d: int| #[trigger] r.day_text(d) == Seq::<char>::empty() by {
                assert(r.rows().filter(on_day(d)) =~= Seq::<NoteEntry>::empty());
                assert(crate::format::entry_lines(Seq::<NoteEntry>::empty()) =~= Seq::<Seq<char>>::empty());
            }
        }
        r
    }

    /// Today's aggregate: from the cache when it holds today's non-empty
    /// text, else from the backend, which then refills the cache. A day with
    /// no notes reads as the empty text.
    pub fn read_today(&mut self, now: Stamp) -> (r: String)
        requires
            old(self).wf(),
            now.wf(),
        ensures
            final(self).wf(),
            r@ == old(self).day_text(local_day(now)),
            final(self).backend == old(self).backend,
            final(self).windows == old(self).windows,
            final(self).cache.date == Some(now.day_spec()),
    {
        let today = now.day();
        match self.cache.lookup(today) {
            Some(t) => t,
            None => {
                let t = self.backend.read_day(today);
                self.cache.refresh(today, t.clone());
                t
            }
        }
    }

    /// The write that adds `content` as a new note at `now`: for day texts,
    /// today's text with one `[HH:MM] content` line added at the end; for the
    /// table, one new entry.
    pub fn plan_append(&self, content: &str, is_quick_capture: bool, now: Stamp) -> (r: Result<Write, StoreError>)
        requires
            self.wf(),
            now.wf(),
        ensures
            r matches Ok(w) ==> self.fits(w),
            if self.can_append() {
                r matches Ok(w) && self.append_write(w, content@, is_quick_capture, now)
            } else {
                r matches Err(StoreError::Full)
            },
    {
        match &self.backend {
            Backend::Files(_) => {
                let today = now.day();
                let existing = self.backend.read_day(today);
                let mut cs = chars_of(existing.as_str());
                if cs.len() > 0 {
                    cs.push('\n');
                }
                let line = format_line(&now, content);
                push_all(&mut cs, &line);
                assert(cs@ =~= appended(self.day_text(local_day(now)), line_of(now, content@)));
                assert(cs@.subrange(0, cs@.len() as int) =~= cs@);
                let text = string_of(&cs, 0, cs.len());
                Ok(Write::Day { day: today, text })
            },
            Backend::Entries(t) => {
                if t.room_for(1) {
                    let c = chars_of(content);
                    let entry = NoteEntry::new(t.next_id, string_of(&c, 0, c.len()), now, is_quick_capture);
                    assert(c@.subrange(0, c@.len() as int) =~= c@);
                    Ok(Write::Insert { entry })
                } else {
                    Err(StoreError::Full)
                }
            },
        }
    }

    /// The write that makes `text` the whole of today's notes: for day texts,
    /// the text itself; for the table, one new entry per content of `text`
    /// (see `text_to_contents`), all created at `now`, in place of today's
    /// entries. The times written in the text are not kept.
    pub fn plan_save(&self, text: &str, now: Stamp) -> (r: Result<Write, StoreError>)
        requires
            self.wf(),
            now.wf(),
        ensures
            r matches Ok(w) ==> self.fits(w),
            if self.can_save(text@) {
                r matches Ok(w) && self.save_write(w, text@, now)
            } else {
                r matches Err(StoreError::Full)
            },
    {
        let today = now.day();
        match &self.backend {
            Backend::Files(_) => {
                let c = chars_of(text);
                assert(c@.subrange(0, c@.len() as int) =~= c@);
                Ok(Write::Day { day: today, text: string_of(&c, 0, c.len()) })
            },
            Backend::Entries(t) => {
                let contents = text_to_contents(text);
                if !t.room_for(contents.len()) {
                    return Err(StoreError::Full);
                }
                let mut entries: Vec<NoteEntry> = Vec::new();
                let mut k: usize = 0;
                while k < contents.len()
                    invariant
                        t.wf(),
                        now.wf(),
                        k <= contents@.len(),
                        t.has_room(contents@.len() as int),
                        views(contents@) == text_contents(text@),
                        Self::saved_entries(entries@, views(contents@).subrange(0, k as int), t.next_id, now),
                    decreases contents@.len() - k,
                {
                    let e = NoteEntry::new(t.next_id + k as i64, contents[k].clone(), now, false);
                    entries.push(e);
                    k = k + 1;
                }
                assert(views(contents@).subrange(0, contents@.len() as int) =~= views(contents@));
                Ok(Write::ReplaceDay { day: today, entries })
            },
        }
    }

    /// New entries, one per content and in that order, created at `now` and
    /// numbered on from `first_id`, none from quick capture.
    pub open spec fn saved_entries(es: Seq<NoteEntry>, contents: Seq<Seq<char>>, first_id: i64, now: Stamp) -> bool {
        &&& es.len() == contents.len()
        &&& forall|i: int|
            0 <= i < es.len() ==> {
                &&& (#[trigger] es[i]).content@ == contents[i]
                &&& es[i].id == first_id + i
                &&& es[i].created_at == now
                &&& es[i].updated_at == now
                &&& !es[i].is_quick_capture
            }
    }

    /// The write that deletes entry `id`: only the table has entries, and
    /// only an entry that is there can be deleted.
    pub fn plan_delete(&self, id: i64) -> (r: Result<Write, StoreError>)
        requires
            self.wf(),
        ensures
            r matches Ok(w) ==> self.fits(w),
            self.delete_outcome(r, id),
    {
        match &self.backend {
            Backend::Files(_) => Err(StoreError::Unsupported),
            Backend::Entries(t) => {
                if t.contains(id) {
                    Ok(Write::Remove { id })
                } else {
                    Err(StoreError::NotFound(id))
                }
            },
        }
    }

    /// Performs `w` on the backend, refills the cache with today's aggregate,
    /// and returns that aggregate for every window.
    pub fn apply(&mut self, w: Write, now: Stamp) -> (r: Notice)
        requires
            old(self).wf(),
            now.wf(),
            old(self).fits(w),
        ensures
            final(self).wf(),
            applied(old(self).backend, w, final(self).backend),
            final(self).windows == old(self).windows,
            final(self).cache.date == Some(now.day_spec()),
            r.payload@ == final(self).day_text(local_day(now)),
            views(r.targets@) == views(old(self).windows@),
    {
        match &mut self.backend {
            Backend::Files(m) => match w {
                Write::Day { day, text } => {
                    m.insert(day, text);
                },
                _ => {},
            },
            Backend::Entries(t) => match w {
                Write::Insert { entry } => {
                    t.insert(entry.content, entry.created_at, entry.is_quick_capture);
                },
                Write::ReplaceDay { day, entries } => {
                    t.replace_day(day, &entries);
                },
                Write::Remove { id } => {
                    t.remove(id);
                },
                Write::Update { id, content, at } => {
                    t.update(id, &content, at);
                },
                _ => {},
            },
        }
        let today = now.day();
        let text = self.backend.read_day(today);
        self.cache.refresh(today, text.clone());
        Notice { targets: copy_strings(&self.windows), payload: text }
    }

    /// The part of local day `day` that counts from instant `from` on: for
    /// day texts the whole text, for the table the entries created since.
    pub open spec fn window_text(&self, day: int, from: int) -> Seq<char> {
        match self.backend {
            Backend::Files(m) => file_text(m@, day),
            Backend::Entries(t) => entries_text(t.rows@.filter(in_window(day, from))),
        }
    }

    /// Does day `day` have notes from instant `from` on: a stored text, or
    /// at least one entry?
    pub open spec fn has_window(&self, day: int, from: int) -> bool {
        &&& MIN_DAY <= day <= MAX_DAY
        &&& match self.backend {
            Backend::Files(m) => m@.contains_key(day as i64),
            Backend::Entries(t) => t.rows@.filter(in_window(day, from)).len() > 0,
        }
    }

    /// The days `today - lo`, `today - (lo + 1)`, ..., `today - (hi - 1)`
    /// that have notes from `from` on, in that order.
    pub open spec fn recent_days(&self, today: int, lo: int, hi: int, from: int) -> Seq<int>
        decreases hi - lo,
    {
        if hi <= lo {
            Seq::<int>::empty()
        } else {
            let pre = self.recent_days(today, lo, hi - 1, from);
            if self.has_window(today - (hi - 1), from) {
                pre.push(today - (hi - 1))
            } else {
                pre
            }
        }
    }

    /// Earlier notes under `policy`, most recent day first, one per day that
    /// has any.
    pub fn recent_notes(&self, policy: RecentPolicy, now: Stamp) -> (r: Vec<RecentNote>)
        requires
            self.wf(),
            now.wf(),
        ensures
            ({
                let (lo, hi, from) = policy_span(policy, now);
                let days = self.recent_days(local_day(now), lo, hi, from);
                &&& r@.len() == days.len()
                &&& forall|i: int|
                    0 <= i < r@.len() ==> {
                        &&& (#[trigger] r@[i]).day == days[i]
                        &&& r@[i].content@ == self.window_text(days[i], from)
                        &&& r@[i].date@ == date_label_of(days[i])
                        &&& views(r@[i].lines@) == nonblank_lines(r@[i].content@)
                    }
            }),
            policy matches RecentPolicy::Days { first, last } ==> forall|i: int|
                0 <= i < r@.len() ==> local_day(now) - last < #[trigger] r@[i].day <= local_day(now) - first,
    {
        let today = now.day();
        let (lo, hi, from): (i64, i64, i64) = match policy {
            RecentPolicy::Days { first, last } => (first as i64, last as i64, i64::MIN),
            RecentPolicy::Hours { hours } => {
                let from = now.utc - hours as i64 * 3600;
                let clamped = if from < MIN_UTC {
                    MIN_UTC
                } else {
                    from
                };
                let earliest = Stamp { utc: clamped, offset: -MAX_OFFSET };
                (0, today - earliest.day() + 1, from)
            },
        };
        assert((lo as int, hi as int, from as int) == policy_span(policy, now));
        let mut out: Vec<RecentNote> = Vec::new();
        let ghost mut days: Seq<int> = Seq::empty();
        let mut k: i64 = lo;
        if k < hi {
            while k < hi
                invariant
                    self.wf(),
                    today == local_day(now),
                    MIN_DAY <= today <= MAX_DAY,
                    0 <= lo <= k <= hi,
                    days == self.recent_days(today as int, lo as int, k as int, from as int),
                    out@.len() == days.len(),
                    forall|i: int|
                        0 <= i < out@.len() ==> {
                            &&& (#[trigger] out@[i]).day == days[i]
                            &&& out@[i].content@ == self.window_text(days[i], from as int)
                            &&& out@[i].date@ == date_label_of(days[i])
                            &&& views(out@[i].lines@) == nonblank_lines(out@[i].content@)
                        },
                decreases hi - k,
            {
                if k <= today - MIN_DAY {
                    let day = today - k;
                    let present = day <= MAX_DAY && match &self.backend {
                        Backend::Files(m) => m.contains_key(&day),
                        Backend::Entries(t) => t.any_in_window(day, from),
                    };
                    if present {
                        let content = match &self.backend {
                            Backend::Files(_) => self.backend.read_day(day),
                            Backend::Entries(t) => t.window_text(day, from),
                        };
                        let lines = text_lines(content.as_str());
                        out.push(RecentNote { day, date: date_label(day), content, lines });
                        proof {
                            days = days.push(day as int);
                        }
                    }
                }
                k = k + 1;
            }
        }
        proof {
            self.lemma_recent_days_range(local_day(now), lo as int, hi as int, from as int);
        }
        out
    }

    proof fn lemma_recent_days_range(&self, today: int, lo: int, hi: int, from: int)
        ensures
            forall|i: int|
                0 <= i < self.recent_days(today, lo, hi, from).len() ==> today - hi
                    < #[trigger] self.recent_days(today, lo, hi, from)[i] <= today - lo,
        decreases hi - lo,
    {
        if hi > lo {
            self.lemma_recent_days_range(today, lo, hi - 1, from);
            let pre = self.recent_days(today, lo, hi - 1, from);
            let all = self.recent_days(today, lo, hi, from);
            assert forall|i: int| 0 <= i < all.len() implies today - hi < #[trigger] all[i] <= today - lo by {
                if i < pre.len() {
                    assert(all[i] == pre[i]);
                }
            }
        }
    }

    /// What updating entry `id` to `content` at `now` comes to: the write
    /// that does it, or why not.
    pub open spec fn update_outcome(&self, r: Result<Write, StoreError>, id: i64, content: Seq<char>, now: Stamp) -> bool {
        match self.backend {
            Backend::Files(_) => r matches Err(StoreError::Unsupported),
            Backend::Entries(t) => if exists|i: int| 0 <= i < t.rows@.len() && t.rows@[i].id == id {
                r matches Ok(Write::Update { id: j, content: c, at }) && j == id && c@ == content && at == now
            } else {
                r matches Err(StoreError::NotFound(j)) && j == id
            },
        }
    }

    /// The write that gives entry `id` the content `content`, updated at
    /// `now`: only the table has entries, and only one that is there.
    pub fn plan_update(&self, id: i64, content: &str, now: Stamp) -> (r: Result<Write, StoreError>)
        requires
            self.wf(),
            now.wf(),
        ensures
            r matches Ok(w) ==> self.fits(w),
            self.update_outcome(r, id, content@, now),
    {
        match &self.backend {
            Backend::Files(_) => Err(StoreError::Unsupported),
            Backend::Entries(t) => {
                if t.contains(id) {
                    let c = chars_of(content);
                    assert(c@.subrange(0, c@.len() as int) =~= c@);
                    Ok(Write::Update { id, content: string_of(&c, 0, c.len()), at: now })
                } else {
                    Err(StoreError::NotFound(id))
                }
            },
        }
    }

    /// Gives entry `id` the content `content`, updated at `now` (table only);
    /// the notice carries today's aggregate.
    pub fn update_note(&mut self, id: i64, content: &str, now: Stamp) -> (r: Result<Notice, StoreError>)
        requires
            old(self).wf(),
            now.wf(),
        ensures
            final(self).wf(),
            final(self).windows == old(self).windows,
            match old(self).backend {
                Backend::Files(_) => r matches Err(StoreError::Unsupported) && *final(self) == *old(self),
                Backend::Entries(t) => if exists|i: int| 0 <= i < t.rows@.len() && t.rows@[i].id == id {
                    &&& r matches Ok(n) && n.payload@ == final(self).day_text(local_day(now))
                    &&& final(self).cache.date == Some(now.day_spec())
                    &&& r matches Ok(n) && views(n.targets@) == views(old(self).windows@)
                    &&& exists|c: String|
                        c@ == content@ && final(self).rows() == #[trigger] revised_rows(t.rows@, id, c, now)
                    &&& final(self).is_entries()
                } else {
                    r matches Err(StoreError::NotFound(j)) && j == id && *final(self) == *old(self)
                },
            },
    {
        match self.plan_update(id, content, now) {
            Ok(w) => Ok(self.apply(w, now)),
            Err(e) => Err(e),
        }
    }

    /// A page of the table's entries, newest first, of one provenance or of
    /// both: `limit` entries (50 when not given) from position `offset` (0
    /// when not given), and the number of entries in that order.
    pub fn list_notes(&self, limit: Option<usize>, offset: Option<usize>, quick: Option<bool>) -> (r: Result<NotesPage, StoreError>)
        requires
            self.wf(),
        ensures
            match self.backend {
                Backend::Files(_) => r matches Err(StoreError::Unsupported),
                Backend::Entries(t) => r matches Ok(page) && page.notes@ == clip(
                    t.newest_first(quick),
                    (match offset {
                        Some(o) => o,
                        None => 0,
                    }) as int,
                    (match limit {
                        Some(l) => l,
                        None => 50,
                    }) as int,
                ) && page.total_count == t.newest_first(quick).len(),
            },
    {
        match &self.backend {
            Backend::Files(_) => Err(StoreError::Unsupported),
            Backend::Entries(t) => {
                let l = match limit {
                    Some(l) => l,
                    None => 50,
                };
                let o = match offset {
                    Some(o) => o,
                    None => 0,
                };
                let (notes, total_count) = t.page(l, o, quick);
                Ok(NotesPage { notes, total_count })
            },
        }
    }

    /// Is there room for the entry that `append` adds?
    pub open spec fn can_append(&self) -> bool {
        match self.backend {
            Backend::Files(_) => true,
            Backend::Entries(t) => t.has_room(1),
        }
    }

    /// `w` adds `content` as a note at `now`: for day texts, today's text
    /// with a `[HH:MM] content` line at its end; for the table, one new entry.
    pub open spec fn append_write(&self, w: Write, content: Seq<char>, is_quick_capture: bool, now: Stamp) -> bool {
        match (self.backend, w) {
            (Backend::Files(_), Write::Day { day, text }) => {
                &&& day == local_day(now)
                &&& text@ == appended(self.day_text(local_day(now)), line_of(now, content))
            },
            (Backend::Entries(t), Write::Insert { entry }) => {
                &&& entry.id == t.next_id
                &&& entry.content@ == content
                &&& entry.created_at == now
                &&& entry.updated_at == now
                &&& entry.is_quick_capture == is_quick_capture
            },
            _ => false,
        }
    }

    /// Is there room for the entries that `save_today` adds?
    pub open spec fn can_save(&self, text: Seq<char>) -> bool {
        match self.backend {
            Backend::Files(_) => true,
            Backend::Entries(t) => t.has_room(text_contents(text).len() as int),
        }
    }

    /// `w` makes `text` today's notes: for day texts, the text itself; for
    /// the table, one entry per content of the text, created at `now`.
    pub open spec fn save_write(&self, w: Write, text: Seq<char>, now: Stamp) -> bool {
        match (self.backend, w) {
            (Backend::Files(_), Write::Day { day, text: t }) => day == local_day(now) && t@ == text,
            (Backend::Entries(t), Write::ReplaceDay { day, entries }) => {
                &&& day == local_day(now)
                &&& Self::saved_entries(entries@, text_contents(text), t.next_id, now)
            },
            _ => false,
        }
    }

    /// What deleting entry `id` comes to: the write that removes it, or why not.
    pub open spec fn delete_outcome(&self, r: Result<Write, StoreError>, id: i64) -> bool {
        match self.backend {
            Backend::Files(_) => r matches Err(StoreError::Unsupported),
            Backend::Entries(t) => if exists|i: int| 0 <= i < t.rows@.len() && t.rows@[i].id == id {
                r matches Ok(Write::Remove { id: j }) && j == id
            } else {
                r matches Err(StoreError::NotFound(j)) && j == id
            },
        }
    }

    /// Adds `content` as today's newest note; the notice carries the new
    /// aggregate. Planning and applying in one step, for callers that keep
    /// no separate durable copy.
    pub fn append(&mut self, content: &str, is_quick_capture: bool, now: Stamp) -> (r: Result<Notice, StoreError>)
        requires
            old(self).wf(),
            now.wf(),
        ensures
            final(self).wf(),
            final(self).windows == old(self).windows,
            if old(self).can_append() {
                &&& r matches Ok(n) && n.payload@ == final(self).day_text(local_day(now))
                &&& final(self).cache.date == Some(now.day_spec())
                &&& r matches Ok(n) && views(n.targets@) == views(old(self).windows@)
                &&& exists|w: Write|
                    old(self).append_write(w, content@, is_quick_capture, now) && #[trigger] applied(
                        old(self).backend,
                        w,
                        final(self).backend,
                    )
            } else {
                r matches Err(StoreError::Full) && *final(self) == *old(self)
            },
    {
        match self.plan_append(content, is_quick_capture, now) {
            Ok(w) => {
                let ghost gw = w;
                let ghost before = *self;
                let n = self.apply(w, now);
                assert(before.append_write(gw, content@, is_quick_capture, now));
                assert(applied(before.backend, gw, self.backend));
                Ok(n)
            },
            Err(e) => Err(e),
        }
    }

    /// Makes `text` the whole of today's notes (see `plan_save`); the notice
    /// carries the new aggregate.
    pub fn save_today(&mut self, text: &str, now: Stamp) -> (r: Result<Notice, StoreError>)
        requires
            old(self).wf(),
            now.wf(),
        ensures
            final(self).wf(),
            final(self).windows == old(self).windows,
            if old(self).can_save(text@) {
                &&& r matches Ok(n) && n.payload@ == final(self).day_text(local_day(now))
                &&& final(self).cache.date == Some(now.day_spec())
                &&& r matches Ok(n) && views(n.targets@) == views(old(self).windows@)
                &&& exists|w: Write|
                    old(self).save_write(w, text@, now) && #[trigger] applied(
                        old(self).backend,
                        w,
                        final(self).backend,
                    )
            } else {
                r matches Err(StoreError::Full) && *final(self) == *old(self)
            },
    {
        match self.plan_save(text, now) {
            Ok(w) => {
                let ghost gw = w;
                let ghost before = *self;
                let n = self.apply(w, now);
                assert(before.save_write(gw, text@, now));
                assert(applied(before.backend, gw, self.backend));
                Ok(n)
            },
            Err(e) => Err(e),
        }
    }

    /// Deletes entry `id` (table only); the notice carries today's aggregate.
    pub fn delete_note(&mut self, id: i64, now: Stamp) -> (r: Result<Notice, StoreError>)
        requires
            old(self).wf(),
            now.wf(),
        ensures
            final(self).wf(),
            final(self).windows == old(self).windows,
            match old(self).backend {
                Backend::Files(_) => r matches Err(StoreError::Unsupported) && *final(self) == *old(self),
                Backend::Entries(t) => if exists|i: int| 0 <= i < t.rows@.len() && t.rows@[i].id == id {
                    &&& r matches Ok(n) && n.payload@ == final(self).day_text(local_day(now))
                    &&& final(self).cache.date == Some(now.day_spec())
                    &&& r matches Ok(n) && views(n.targets@) == views(old(self).windows@)
                    &&& final(self).rows() == t.rows@.filter(other_than(id))
                    &&& final(self).is_entries()
                } else {
                    r matches Err(StoreError::NotFound(j)) && j == id && *final(self) == *old(self)
                },
            },
    {
        match self.plan_delete(id) {
            Ok(w) => Ok(self.apply(w, now)),
            Err(e) => Err(e),
        }
    }
}

} // verus!
