use daily_notes::clock::Stamp;
use daily_notes::store::{NoteStore, RecentPolicy, StoreError};

const DAY: i64 = 86400;
/// 2024-03-01T00:00:00Z.
const MARCH_1: i64 = 1709251200;

fn at(day_start: i64, h: i64, m: i64) -> Stamp {
    Stamp::new(day_start + h * 3600 + m * 60, 0).unwrap()
}

fn windows() -> Vec<String> {
    vec!["main".to_string(), "quick-capture".to_string()]
}

fn ok_payload(r: Result<daily_notes::store::Notice, StoreError>) -> String {
    match r {
        Ok(n) => n.payload,
        Err(e) => panic!("unexpected error {:?}", e),
    }
}

#[test]
fn append_twice_reads_both_lines_from_files() {
    let mut s = NoteStore::with_files(windows());
    ok_payload(s.append("Buy milk", false, at(MARCH_1, 9, 5)));
    assert_eq!(s.read_today(at(MARCH_1, 9, 6)), "[09:05] Buy milk");
    let p = ok_payload(s.append("Call Bob", false, at(MARCH_1, 9, 10)));
    assert_eq!(p, "[09:05] Buy milk\n[09:10] Call Bob");
    assert_eq!(s.read_today(at(MARCH_1, 9, 11)), "[09:05] Buy milk\n[09:10] Call Bob");
}

#[test]
fn append_twice_reads_both_lines_from_entries() {
    let mut s = NoteStore::with_entries(windows());
    ok_payload(s.append("Buy milk", true, at(MARCH_1, 9, 5)));
    assert_eq!(s.read_today(at(MARCH_1, 9, 6)), "[09:05] Buy milk");
    ok_payload(s.append("Call Bob", false, at(MARCH_1, 9, 10)));
    assert_eq!(s.read_today(at(MARCH_1, 9, 11)), "[09:05] Buy milk\n[09:10] Call Bob");
}

#[test]
fn fresh_store_reads_empty() {
    let mut f = NoteStore::with_files(windows());
    assert_eq!(f.read_today(at(MARCH_1, 8, 0)), "");
    let mut e = NoteStore::with_entries(windows());
    assert_eq!(e.read_today(at(MARCH_1, 8, 0)), "");
}

#[test]
fn append_is_not_idempotent() {
    let mut s = NoteStore::with_entries(windows());
    ok_payload(s.append("same", false, at(MARCH_1, 9, 0)));
    let p = ok_payload(s.append("same", false, at(MARCH_1, 9, 0)));
    assert_eq!(p, "[09:00] same\n[09:00] same");
}

#[test]
fn appended_line_is_last_after_prefix() {
    let mut s = NoteStore::with_files(windows());
    s.save_today("[07:00] earlier\nfree text", at(MARCH_1, 7, 30)).unwrap();
    ok_payload(s.append("  spaced content ", false, at(MARCH_1, 12, 34)));
    let text = s.read_today(at(MARCH_1, 12, 35));
    let last = text.split('\n').last().unwrap();
    assert_eq!(last, "[12:34]   spaced content ");
    assert_eq!(&last[8..], "  spaced content ");
}

#[test]
fn notice_goes_to_every_window() {
    let mut s = NoteStore::with_files(windows());
    let n = s.append("x", false, at(MARCH_1, 9, 5)).unwrap();
    assert_eq!(n.targets, windows());
    assert_eq!(n.payload, "[09:05] x");
}

#[test]
fn save_then_delete_on_entries() {
    let mut s = NoteStore::with_entries(windows());
    let now = at(MARCH_1, 11, 0);
    s.save_today("[09:05] Buy milk\n[09:10] Call Bob", now).unwrap();
    let page = s.list_notes(None, None, None).unwrap();
    let milk = page.notes.iter().find(|e| e.content == "Buy milk").unwrap().id;
    ok_payload(s.delete_note(milk, at(MARCH_1, 11, 5)));
    let today = s.read_today(at(MARCH_1, 11, 6));
    assert!(!today.contains("Buy milk"));
    assert!(today.contains("Call Bob"));
    let later = at(MARCH_1 + DAY, 8, 0);
    let recent = s.recent_notes(RecentPolicy::Days { first: 1, last: 3 }, later);
    assert_eq!(recent.len(), 1);
    assert!(!recent[0].content.contains("Buy milk"));
    assert!(recent[0].content.contains("Call Bob"));
}

#[test]
fn save_collapses_times_to_the_save_instant() {
    let mut s = NoteStore::with_entries(windows());
    let now = at(MARCH_1, 11, 0);
    let p = ok_payload(s.save_today("[09:05] Buy milk\n[09:10] Call Bob", now));
    assert_eq!(p, "[11:00] Buy milk\n[11:00] Call Bob");
    let page = s.list_notes(None, None, None).unwrap();
    assert!(page.notes.iter().all(|e| e.created_at == now && e.updated_at == now));
}

#[test]
fn save_then_read_keeps_contents() {
    let text = "[09:05] Buy milk\n\n   \nplain line  \n[x]  trimmed  \n[]empty prefix\nno]bracket";
    let now = at(MARCH_1, 15, 0);
    let mut f = NoteStore::with_files(windows());
    f.save_today(text, now).unwrap();
    assert_eq!(f.read_today(now), text);
    let mut e = NoteStore::with_entries(windows());
    e.save_today(text, now).unwrap();
    let back = e.read_today(now);
    assert_eq!(
        daily_notes::format::text_to_contents(&back),
        daily_notes::format::text_to_contents(text)
    );
}

#[test]
fn save_replaces_only_today() {
    let mut s = NoteStore::with_entries(windows());
    ok_payload(s.append("yesterday", false, at(MARCH_1 - DAY, 20, 0)));
    ok_payload(s.append("old today", false, at(MARCH_1, 8, 0)));
    ok_payload(s.save_today("new today", at(MARCH_1, 9, 0)));
    assert_eq!(s.read_today(at(MARCH_1, 9, 1)), "[09:00] new today");
    let recent = s.recent_notes(RecentPolicy::Days { first: 1, last: 2 }, at(MARCH_1, 9, 1));
    assert_eq!(recent.len(), 1);
    assert_eq!(recent[0].content, "[20:00] yesterday");
}

#[test]
fn recent_days_skip_today() {
    let mut s = NoteStore::with_files(windows());
    s.save_today("two days ago", at(MARCH_1 - 2 * DAY, 10, 0)).unwrap();
    s.save_today("a\n\n  \nb", at(MARCH_1 - DAY, 10, 0)).unwrap();
    s.save_today("today", at(MARCH_1, 10, 0)).unwrap();
    s.save_today("three days ago", at(MARCH_1 - 3 * DAY, 10, 0)).unwrap();
    let r = s.recent_notes(RecentPolicy::Days { first: 1, last: 3 }, at(MARCH_1, 12, 0));
    assert_eq!(r.len(), 2);
    assert_eq!(r[0].date, "2024-02-29");
    assert_eq!(r[0].content, "a\n\n  \nb");
    assert_eq!(r[0].lines, vec!["a".to_string(), "b".to_string()]);
    assert_eq!(r[1].date, "2024-02-28");
    assert_eq!(r[1].content, "two days ago");
    assert!(r.iter().all(|n| n.content != "today"));
}

#[test]
fn recent_hours_leave_out_older_entries() {
    let mut s = NoteStore::with_entries(windows());
    let now = at(MARCH_1, 12, 0);
    ok_payload(s.append("too old", false, at(MARCH_1 - 2 * DAY, 11, 59)));
    ok_payload(s.append("just inside", false, at(MARCH_1 - 2 * DAY, 12, 0)));
    ok_payload(s.append("yesterday", false, at(MARCH_1 - DAY, 9, 0)));
    ok_payload(s.append("today", false, at(MARCH_1, 10, 0)));
    let r = s.recent_notes(RecentPolicy::Hours { hours: 48 }, now);
    assert_eq!(r.len(), 3);
    assert_eq!(r[0].content, "[10:00] today");
    assert_eq!(r[1].content, "[09:00] yesterday");
    assert_eq!(r[2].content, "[12:00] just inside");
    assert_eq!(r[2].date, "2024-02-28");
    assert!(r.iter().all(|n| !n.content.contains("too old")));
}

#[test]
fn two_appends_keep_both_lines() {
    let mut s = NoteStore::with_entries(windows());
    ok_payload(s.append("first", false, at(MARCH_1, 8, 0)));
    ok_payload(s.append("a", false, at(MARCH_1, 9, 0)));
    ok_payload(s.append("b", true, at(MARCH_1, 9, 0)));
    let text = s.read_today(at(MARCH_1, 9, 1));
    let lines: Vec<&str> = text.split('\n').collect();
    assert_eq!(lines, vec!["[08:00] first", "[09:00] a", "[09:00] b"]);
}

#[test]
fn delete_errors() {
    let mut f = NoteStore::with_files(windows());
    assert!(matches!(f.delete_note(1, at(MARCH_1, 9, 0)), Err(StoreError::Unsupported)));
    let mut e = NoteStore::with_entries(windows());
    ok_payload(e.append("x", false, at(MARCH_1, 9, 0)));
    assert!(matches!(e.delete_note(7, at(MARCH_1, 9, 0)), Err(StoreError::NotFound(7))));
    assert_eq!(e.read_today(at(MARCH_1, 9, 0)), "[09:00] x");
}

#[test]
fn update_changes_content_only() {
    let mut e = NoteStore::with_entries(windows());
    ok_payload(e.append("draft", true, at(MARCH_1, 9, 0)));
    let id = e.list_notes(None, None, None).unwrap().notes[0].id;
    let p = ok_payload(e.update_note(id, "final", at(MARCH_1, 10, 0)));
    assert_eq!(p, "[09:00] final");
    let n = &e.list_notes(None, None, None).unwrap().notes[0];
    assert_eq!(n.created_at, at(MARCH_1, 9, 0));
    assert_eq!(n.updated_at, at(MARCH_1, 10, 0));
    assert!(n.is_quick_capture);
    assert!(matches!(e.update_note(id + 1, "x", at(MARCH_1, 10, 0)), Err(StoreError::NotFound(_))));
    let mut f = NoteStore::with_files(windows());
    assert!(matches!(f.update_note(1, "x", at(MARCH_1, 10, 0)), Err(StoreError::Unsupported)));
}

#[test]
fn list_notes_pages_newest_first() {
    let mut e = NoteStore::with_entries(windows());
    for (i, quick) in [false, true, false, true, false].iter().enumerate() {
        ok_payload(e.append(&format!("n{}", i), *quick, at(MARCH_1, 9, i as i64)));
    }
    let all = e.list_notes(None, None, None).unwrap();
    assert_eq!(all.total_count, 5);
    let names: Vec<&str> = all.notes.iter().map(|n| n.content.as_str()).collect();
    assert_eq!(names, vec!["n4", "n3", "n2", "n1", "n0"]);
    let page = e.list_notes(Some(2), Some(1), None).unwrap();
    let names: Vec<&str> = page.notes.iter().map(|n| n.content.as_str()).collect();
    assert_eq!(names, vec!["n3", "n2"]);
    assert_eq!(page.total_count, 5);
    let quick = e.list_notes(None, None, Some(true)).unwrap();
    let names: Vec<&str> = quick.notes.iter().map(|n| n.content.as_str()).collect();
    assert_eq!(names, vec!["n3", "n1"]);
    assert_eq!(quick.total_count, 2);
    let past = e.list_notes(Some(10), Some(9), None).unwrap();
    assert!(past.notes.is_empty());
    let f = NoteStore::with_files(windows());
    assert!(matches!(f.list_notes(None, None, None), Err(StoreError::Unsupported)));
}

#[test]
fn cache_follows_the_day() {
    let mut s = NoteStore::with_files(windows());
    ok_payload(s.append("monday", false, at(MARCH_1, 23, 59)));
    assert_eq!(s.read_today(at(MARCH_1, 23, 59)), "[23:59] monday");
    assert_eq!(s.read_today(at(MARCH_1 + DAY, 0, 0)), "");
    assert_eq!(s.cache.date, Some(at(MARCH_1 + DAY, 0, 0).day()));
}

#[test]
fn plan_then_apply_leaves_store_alone_until_applied() {
    let mut s = NoteStore::with_files(windows());
    let now = at(MARCH_1, 9, 5);
    let w = s.plan_append("x", false, now).unwrap();
    assert_eq!(s.read_today(now), "");
    let n = s.apply(w, now);
    assert_eq!(n.payload, "[09:05] x");
}

#[test]
fn recent_lines_of_crlf_day() {
    let mut s = NoteStore::with_files(windows());
    s.save_today("one\r\ntwo\r\n", at(MARCH_1 - DAY, 10, 0)).unwrap();
    let r = s.recent_notes(RecentPolicy::Days { first: 1, last: 3 }, at(MARCH_1, 12, 0));
    assert_eq!(r.len(), 1);
    assert_eq!(r[0].lines, vec!["one".to_string(), "two".to_string()]);
}

#[test]
fn delete_notifies_every_window_and_refreshes_cache() {
    let mut s = NoteStore::with_entries(windows());
    ok_payload(s.append("keep", false, at(MARCH_1, 9, 0)));
    ok_payload(s.append("drop", false, at(MARCH_1, 9, 1)));
    let id = s.list_notes(None, None, None).unwrap().notes[0].id;
    let n = s.delete_note(id, at(MARCH_1, 9, 2)).unwrap();
    assert_eq!(n.targets, windows());
    assert_eq!(n.payload, "[09:00] keep");
    assert_eq!(s.cache.date, Some(at(MARCH_1, 9, 2).day()));
    assert_eq!(s.cache.text, "[09:00] keep");
}
