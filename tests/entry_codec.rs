use todo_list::entry::{numbered_line, DecodeError, Entry};
use todo_list::text::{decimal, is_blank, same_text, split_lines};

#[test]
fn file_line_marks_done_and_pending() {
    assert_eq!(Entry::new("call mom".to_string(), true).file_line(), "[*] call mom\n");
    assert_eq!(Entry::new("buy milk".to_string(), false).file_line(), "[ ]buy milk\n");
}

#[test]
fn raw_line_is_text_alone() {
    assert_eq!(Entry::new("call mom".to_string(), true).raw_line(), "call mom\n");
}

#[test]
fn read_line_strips_four_characters() {
    let e = Entry::read_line(&"[*] call mom".to_string()).unwrap();
    assert!(e.done);
    assert_eq!(e.todo_entry, "call mom");
    let e = Entry::read_line(&"[ ]buy milk".to_string()).unwrap();
    assert!(!e.done);
    assert_eq!(e.todo_entry, "uy milk");
}

#[test]
fn read_line_too_short() {
    assert_eq!(Entry::read_line(&"[ ]".to_string()).err(), Some(DecodeError::LineTooShort));
    assert_eq!(Entry::read_line(&"".to_string()).err(), Some(DecodeError::LineTooShort));
}

#[test]
fn read_line_counts_characters_not_bytes() {
    let e = Entry::read_line(&"[ ]éa".to_string()).unwrap();
    assert_eq!(e.todo_entry, "a");
}

#[test]
fn round_trip_done_entry_is_exact() {
    let e = Entry::new("call mom".to_string(), true);
    let line = e.file_line();
    let back = Entry::read_line(&line.trim_end_matches('\n').to_string()).unwrap();
    assert!(back.done);
    assert_eq!(back.todo_entry, "call mom");
}

#[test]
fn round_trip_pending_entry_loses_first_character() {
    let e = Entry::new("buy milk".to_string(), false);
    let line = e.file_line();
    let back = Entry::read_line(&line.trim_end_matches('\n').to_string()).unwrap();
    assert!(!back.done);
    assert_eq!(back.todo_entry, "uy milk");
}

#[test]
fn round_trip_pending_empty_text_is_too_short() {
    let line = Entry::new(String::new(), false).file_line();
    let r = Entry::read_line(&line.trim_end_matches('\n').to_string());
    assert_eq!(r.err(), Some(DecodeError::LineTooShort));
}

#[test]
fn list_line_of_pending_entry() {
    assert_eq!(Entry::new("buy milk".to_string(), false).list_line(3), "3 buy milk\n");
}

#[test]
fn list_line_of_done_entry_keeps_number_and_text() {
    let l = Entry::new("call mom".to_string(), true).list_line(12);
    assert!(l.starts_with("12 "));
    assert!(l.ends_with('\n'));
    assert!(l.contains("call mom"));
}

#[test]
fn numbered_line_exact() {
    assert_eq!(numbered_line(7, "wash car"), "7 wash car\n");
}

#[test]
fn decimal_numerals() {
    assert_eq!(decimal(0), "0");
    assert_eq!(decimal(9), "9");
    assert_eq!(decimal(120), "120");
    assert_eq!(decimal(usize::MAX), usize::MAX.to_string());
}

#[test]
fn same_text_compares_characters() {
    assert!(same_text("done", "done"));
    assert!(!same_text("done", "don"));
    assert!(!same_text("todo", "done"));
    assert!(same_text("", ""));
}

#[test]
fn blank_texts() {
    assert!(is_blank(""));
    assert!(is_blank("  \t"));
    assert!(is_blank("\u{3000}\u{a0}"));
    assert!(!is_blank(" a "));
}

#[test]
fn split_lines_like_str_lines() {
    for s in ["", "a", "a\n", "a\nb", "a\r\nb\r\n", "\n\n", "a\r\r\n", "x\ry\n\nz"] {
        let expected: Vec<String> = s.lines().map(str::to_string).collect();
        assert_eq!(split_lines(s), expected, "{:?}", s);
    }
}
