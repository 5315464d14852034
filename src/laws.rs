//! What holds across operations of the store, stated over the contracts of
//! `NoteStore::append` and `NoteStore::save_today` and the aggregate that
//! `NoteStore::read_today` returns (`day_text` of the current day).
use vstd::prelude::*;
use crate::clock::{local_day, Stamp};
use crate::format::{
    entries_text, lemma_contents_clean, lemma_entries_text_push, lemma_entries_text_contents,
    lemma_line_shape, line_of, text_contents,
};
use crate::store::{appended, applied, window_start, Backend, NoteStore, Write};
use crate::table::{in_window, on_day};
use crate::text::{free_of, lemma_split_append, lemma_split_single, split_lines};

verus! {

/// No entry of the store was created after `now`: the clock has not gone
/// back since the last note.
pub open spec fn none_after(s: NoteStore, now: Stamp) -> bool {
    forall|i: int| 0 <= i < s.rows().len() ==> (#[trigger] s.rows()[i]).created_at.utc <= now.utc
}

/// An append of `content` at `now` took `before` to `after`, as
/// `NoteStore::append` promises when it succeeds.
pub open spec fn appended_to(before: NoteStore, after: NoteStore, content: Seq<char>, quick: bool, now: Stamp) -> bool {
    exists|w: Write|
        before.append_write(w, content, quick, now) && #[trigger] applied(before.backend, w, after.backend)
}

/// A save of `text` at `now` took `before` to `after`, as
/// `NoteStore::save_today` promises when it succeeds.
pub open spec fn saved_to(before: NoteStore, after: NoteStore, text: Seq<char>, now: Stamp) -> bool {
    exists|w: Write| before.save_write(w, text, now) && #[trigger] applied(before.backend, w, after.backend)
}

/// An append adds one line at the end of the day's aggregate, and leaves no
/// entry newer than `now`.
pub proof fn lemma_append_text(before: NoteStore, after: NoteStore, content: Seq<char>, quick: bool, now: Stamp)
    requires
        before.wf(),
        now.wf(),
        none_after(before, now),
        appended_to(before, after, content, quick, now),
    ensures
        after.day_text(local_day(now)) == appended(before.day_text(local_day(now)), line_of(now, content)),
        none_after(after, now),
{
    let w = choose|w: Write|
        before.append_write(w, content, quick, now) && #[trigger] applied(before.backend, w, after.backend);
    let today = local_day(now);
    match (before.backend, w, after.backend) {
        (Backend::Entries(t), Write::Insert { entry }, Backend::Entries(t2)) => {
            let p = choose|p: int|
                {
                    &&& 0 <= p <= t.rows@.len()
                    &&& t2.rows@ == t.rows@.insert(p, entry)
                    &&& forall|k: int| 0 <= k < p ==> (#[trigger] t.rows@[k]).created_at.utc <= entry.created_at.utc
                    &&& forall|k: int|
                        p <= k < t.rows@.len() ==> (#[trigger] t.rows@[k]).created_at.utc > entry.created_at.utc
                };
            assert(before.rows() == t.rows@);
            if p < t.rows@.len() {
                assert(before.rows()[p].created_at.utc <= now.utc);
            }
            assert(t2.rows@ =~= t.rows@.push(entry));
            t.rows@.lemma_filter_push(entry, on_day(today));
            let f = t.rows@.filter(on_day(today));
            lemma_entries_text_push(f, entry);
            assert(after.rows() == t2.rows@);
            assert forall|i: int| 0 <= i < after.rows().len() implies (#[trigger] after.rows()[i]).created_at.utc <= now.utc by {
                if i < t.rows@.len() {
                    assert(t2.rows@[i] == before.rows()[i]);
                }
            }
        },
        _ => {},
    }
}

/// After `append(content)`, the aggregate that `read_today` returns ends
/// with the new note: its last line is `[HH:MM] content`, and that line
/// without its eight-character `[HH:MM] ` prefix is `content`. It needs a
/// content without newlines and a clock that has not gone back.
pub proof fn law_append_then_read(before: NoteStore, after: NoteStore, content: Seq<char>, quick: bool, now: Stamp)
    requires
        before.wf(),
        now.wf(),
        free_of(content, '\n'),
        none_after(before, now),
        appended_to(before, after, content, quick, now),
    ensures
        split_lines(after.day_text(local_day(now))).last() == line_of(now, content),
        split_lines(after.day_text(local_day(now))).last().subrange(8, content.len() + 8 as int) == content,
{
    let today = local_day(now);
    lemma_append_text(before, after, content, quick, now);
    lemma_line_shape(now, content);
    let l = line_of(now, content);
    if before.day_text(today).len() == 0 {
        lemma_split_single(l);
    } else {
        lemma_split_append(before.day_text(today), l);
    }
}

/// Two appends in a row on one day keep both notes: the day's lines are the
/// earlier ones, then the first note, then the second, none lost and none
/// repeated. It needs contents without newlines and a clock that has not
/// gone back.
pub proof fn law_two_appends(
    before: NoteStore,
    mid: NoteStore,
    after: NoteStore,
    a: Seq<char>,
    qa: bool,
    t1: Stamp,
    b: Seq<char>,
    qb: bool,
    t2: Stamp,
)
    requires
        before.wf(),
        mid.wf(),
        t1.wf(),
        t2.wf(),
        local_day(t1) == local_day(t2),
        t1.utc <= t2.utc,
        free_of(a, '\n'),
        free_of(b, '\n'),
        none_after(before, t1),
        appended_to(before, mid, a, qa, t1),
        appended_to(mid, after, b, qb, t2),
    ensures
        ({
            let d = local_day(t1);
            let l1 = line_of(t1, a);
            let l2 = line_of(t2, b);
            split_lines(after.day_text(d)) == if before.day_text(d).len() == 0 {
                seq![l1, l2]
            } else {
                split_lines(before.day_text(d)).push(l1).push(l2)
            }
        }),
{
    let d = local_day(t1);
    let l1 = line_of(t1, a);
    let l2 = line_of(t2, b);
    lemma_append_text(before, mid, a, qa, t1);
    lemma_line_shape(t1, a);
    lemma_line_shape(t2, b);
    assert(none_after(mid, t2)) by {
        assert forall|i: int| 0 <= i < mid.rows().len() implies (#[trigger] mid.rows()[i]).created_at.utc <= t2.utc by {
            assert(mid.rows()[i].created_at.utc <= t1.utc);
        }
    }
    lemma_append_text(mid, after, b, qb, t2);
    let m = mid.day_text(d);
    assert(m.len() > 0);
    lemma_split_append(m, l2);
    if before.day_text(d).len() == 0 {
        lemma_split_single(l1);
        assert(seq![l1].push(l2) =~= seq![l1, l2]);
    } else {
        lemma_split_append(before.day_text(d), l1);
    }
}

/// Saving a text and then reading today's aggregate gives back the same
/// contents, in the same order: for day texts the text itself, for the
/// table one line per content. The times in the prefixes are not kept: the
/// table's entries are all created at the moment of the save.
pub proof fn law_save_then_read(before: NoteStore, after: NoteStore, text: Seq<char>, now: Stamp)
    requires
        before.wf(),
        now.wf(),
        saved_to(before, after, text, now),
    ensures
        text_contents(after.day_text(local_day(now))) == text_contents(text),
{
    let w = choose|w: Write| before.save_write(w, text, now) && #[trigger] applied(before.backend, w, after.backend);
    match (before.backend, w, after.backend) {
        (Backend::Entries(t), Write::ReplaceDay { day, entries }, Backend::Entries(t2)) => {
            let cs = text_contents(text);
            lemma_contents_clean(text);
            let es = entries@;
            assert(NoteStore::saved_entries(es, cs, t.next_id, now));
            assert forall|i: int|
                0 <= i < es.len() implies (#[trigger] es[i]).content@ == cs[i] && crate::text::is_trimmed(cs[i])
                && free_of(cs[i], '\n') by {}
            lemma_entries_text_contents(es, cs);
            assert(t2.rows@.filter(on_day(day as int)) == es);
        },
        _ => {},
    }
}

/// Under an hour window, a day's note from the table is the aggregate of
/// entries of that day created at or after the window's start, `hours`
/// hours before `now`, and of no other entries.
pub proof fn law_hour_window(store: NoteStore, now: Stamp, hours: int, day: int)
    requires
        store.wf(),
        store.is_entries(),
    ensures
        ({
            let es = store.rows().filter(in_window(day, window_start(now, hours)));
            &&& store.window_text(day, window_start(now, hours)) == entries_text(es)
            &&& forall|j: int|
                0 <= j < es.len() ==> (#[trigger] es[j]).created_at.utc >= now.utc - hours * 3600
                    && local_day(es[j].created_at) == day && store.rows().contains(es[j])
        }),
{
    let f = in_window(day, window_start(now, hours));
    let es = store.rows().filter(f);
    assert forall|j: int| 0 <= j < es.len() implies (#[trigger] es[j]).created_at.utc >= now.utc - hours * 3600
        && local_day(es[j].created_at) == day && store.rows().contains(es[j]) by {
        store.rows().lemma_filter_pred(f, j);
        store.rows().lemma_filter_contains_rev(f, es[j]);
        assert(es.contains(es[j]));
    }
}

} // verus!
