use daily_notes::clock::{now, Stamp};
use daily_notes::entry::NoteEntry;
use daily_notes::format::{entries_to_text, format_line, text_lines, text_to_contents};

/// 2024-03-01T00:00:00Z.
const MARCH_1: i64 = 1709251200;

#[test]
fn contents_strip_prefix_and_trim() {
    let c = text_to_contents("[09:05] Buy milk\n\n \t \n  plain  \n[]x\na]b\n[unclosed\n[01.03 10:00]   spaced   ");
    assert_eq!(c, vec!["Buy milk", "plain", "x", "a]b", "[unclosed", "spaced"]);
}

#[test]
fn contents_keep_empty_content_after_prefix() {
    assert_eq!(text_to_contents("[09:05]"), vec![""]);
    assert_eq!(text_to_contents(""), Vec::<String>::new());
    assert_eq!(text_to_contents("a\r\nb\n"), vec!["a", "b"]);
}

#[test]
fn entries_join_with_newlines() {
    let e1 = NoteEntry::new(1, "one".to_string(), Stamp::new(MARCH_1 + 9 * 3600, 0).unwrap(), false);
    let e2 = NoteEntry::new(2, "two".to_string(), Stamp::new(MARCH_1 + 9 * 3600 + 60, 0).unwrap(), true);
    assert_eq!(entries_to_text(&vec![e1, e2]), "[09:00] one\n[09:01] two");
    assert_eq!(entries_to_text(&vec![]), "");
}

#[test]
fn line_uses_local_time() {
    let st = Stamp::new(MARCH_1 + 9 * 3600 + 5 * 60, 3600).unwrap();
    let line: String = format_line(&st, "x").into_iter().collect();
    assert_eq!(line, "[10:05] x");
    let west = Stamp::new(MARCH_1 + 3600, -7200).unwrap();
    assert_eq!(west.day(), MARCH_1 / 86400 - 1);
    let line: String = format_line(&west, "y").into_iter().collect();
    assert_eq!(line, "[23:00] y");
}

#[test]
fn lines_keep_non_blank() {
    assert_eq!(text_lines("a\n  \n b \n"), vec!["a", " b "]);
}

#[test]
fn stamp_range() {
    assert!(Stamp::new(0, 86400).is_none());
    assert!(Stamp::new(0, -86399).is_some());
    assert!(Stamp::new(253402300800, 0).is_none());
    assert!(Stamp::new(-62135596800, 0).is_some());
    assert_eq!(Stamp::new(MARCH_1, 0).unwrap().day(), 19783);
    assert_eq!(Stamp::new(-1, 0).unwrap().day(), -1);
    assert!(now().is_some());
}

#[test]
fn rows_take_defaults() {
    let e = NoteEntry::from_row(None, None, None, Some("not a time".to_string()), None);
    assert_eq!(e.id, 0);
    assert_eq!(e.content, "");
    assert_eq!(e.created_at.utc, 0);
    assert_eq!(e.updated_at.utc, 0);
    assert!(!e.is_quick_capture);
    let r = NoteEntry::from_row(
        Some(4),
        Some("hi".to_string()),
        Some("2024-03-01T09:05:00+00:00".to_string()),
        Some("2024-03-01T10:05:00+01:00".to_string()),
        Some(true),
    );
    assert_eq!(r.id, 4);
    assert_eq!(r.content, "hi");
    assert_eq!(r.created_at.utc, MARCH_1 + 9 * 3600 + 300);
    assert_eq!(r.updated_at.utc, MARCH_1 + 9 * 3600 + 300);
    assert!(r.is_quick_capture);
}

#[test]
fn lines_drop_carriage_return_before_newline() {
    assert_eq!(text_lines("a\r\n\r\nb\r\nc\r"), vec!["a", "b", "c\r"]);
    assert_eq!(text_lines("x\r\r\ny"), vec!["x\r", "y"]);
}
