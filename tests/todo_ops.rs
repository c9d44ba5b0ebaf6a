use todo_list::todo::{
    default_path, legacy_path, resolve_backup_path, resolve_todo_path, Todo, TodoError,
};
use todo_list::usage::help;

fn load(contents: &str) -> Todo {
    Todo::new("/t/todo".to_string(), "/t/bak".to_string(), false, contents)
}

fn args(a: &[&str]) -> Vec<String> {
    a.iter().map(|s| s.to_string()).collect()
}

#[test]
fn new_splits_lines() {
    let t = load("[ ]a\r\n[*] b\n");
    assert_eq!(t.todo, vec!["[ ]a".to_string(), "[*] b".to_string()]);
    assert_eq!(t.todo_path, "/t/todo");
    assert_eq!(t.todo_bak, "/t/bak");
    assert!(!t.no_backup);
}

#[test]
fn raw_todo_and_done_example() {
    let t = load("[ ]buy milk\n[*] call mom\n");
    assert_eq!(t.raw(&args(&["todo"])).unwrap(), "uy milk\n");
    assert_eq!(t.raw(&args(&["done"])).unwrap(), "call mom\n");
}

#[test]
fn raw_other_word_selects_nothing() {
    let t = load("[ ]buy milk\n[*] call mom\n");
    assert_eq!(t.raw(&args(&["all"])).unwrap(), "");
}

#[test]
fn raw_argument_count() {
    let t = load("[ ]buy milk\n");
    assert_eq!(t.raw(&args(&[])), Err(TodoError::InvalidArgCount));
    assert_eq!(t.raw(&args(&["done", "todo"])), Err(TodoError::InvalidArgCount));
}

#[test]
fn raw_short_line() {
    let t = load("[ ]buy milk\nx\n");
    assert_eq!(t.raw(&args(&["todo"])), Err(TodoError::LineTooShort));
}

#[test]
fn add_skips_blank_arguments() {
    let t = load("");
    assert_eq!(t.add(&args(&["", "  ", "wash car"])).unwrap(), "[ ]wash car\n");
}

#[test]
fn add_keeps_argument_order_and_text() {
    let t = load("[*] old\n");
    assert_eq!(t.add(&args(&[" a ", "b"])).unwrap(), "[ ] a \n[ ]b\n");
    assert_eq!(t.add(&args(&[])), Err(TodoError::InvalidArgCount));
}

#[test]
fn remove_drops_named_positions() {
    let t = load("[ ]a1\n[ ]b2\n[*] c3\n");
    assert_eq!(t.remove(&args(&["2"])).unwrap(), "[ ]a1\n[*] c3\n");
    assert_eq!(t.remove(&args(&["3", "1"])).unwrap(), "[ ]b2\n");
}

#[test]
fn remove_absent_index_is_no_op() {
    let t = load("[ ]a1\r\n[ ]b2\n");
    assert_eq!(t.remove(&args(&["9", "02", "x"])).unwrap(), "[ ]a1\n[ ]b2\n");
    assert_eq!(t.remove(&args(&[])), Err(TodoError::InvalidArgCount));
}

#[test]
fn remove_keeps_short_lines() {
    let t = load("x\n[ ]b2\n");
    assert_eq!(t.remove(&args(&["2"])).unwrap(), "x\n");
}

#[test]
fn sort_puts_done_last_stably() {
    let t = load("[*] d1\n[ ]p1\n[*] d2\n[ ]p2\n");
    assert_eq!(t.sort().unwrap(), "[ ]p1\n[ ]p2\n[*] d1\n[*] d2\n");
}

#[test]
fn sort_of_sorted_list_is_identical() {
    let contents = "[ ]p1\n[ ]p2\n[*] d1\n[*] d2\n";
    assert_eq!(load(contents).sort().unwrap(), contents);
}

#[test]
fn sort_twice_is_sort_once() {
    let once = load("[*] d1\n[ ]p1\n[*] d2\n[ ]p2\n").sort().unwrap();
    assert_eq!(load(&once).sort().unwrap(), once);
}

#[test]
fn sort_short_line() {
    assert_eq!(load("[ ]p1\nab\n").sort(), Err(TodoError::LineTooShort));
}

#[test]
fn done_toggles_named_lines() {
    let t = load("[ ]buy milk\n[*] call mom\n[ ]walk\n");
    assert_eq!(
        t.done(&args(&["1", "2"])).unwrap(),
        "[*] uy milk\n[ ]call mom\n[ ]walk\n"
    );
}

#[test]
fn done_twice_restores_done_state() {
    let first = load("[*] call mom\n[ ]buy milk\n").done(&args(&["1"])).unwrap();
    assert_eq!(first, "[ ]call mom\n[ ]buy milk\n");
    let second = load(&first).done(&args(&["1"])).unwrap();
    assert_eq!(second, "[*] all mom\n[ ]buy milk\n");
    assert!(second.starts_with("[*] "));
}

#[test]
fn done_errors() {
    let t = load("ab\n[ ]walk\n");
    assert_eq!(t.done(&args(&[])), Err(TodoError::InvalidArgCount));
    assert_eq!(t.done(&args(&["1"])), Err(TodoError::LineTooShort));
    assert_eq!(t.done(&args(&["2"])).unwrap(), "ab\n[*] alk\n");
}

#[test]
fn edit_replaces_text_and_keeps_flag() {
    let t = load("[ ]buy milk\n[*] call mom\n");
    assert_eq!(
        t.edit(&args(&["2", "call dad"])).unwrap(),
        "[ ]buy milk\n[*] call dad\n"
    );
    assert_eq!(
        t.edit(&args(&["1", "buy bread"])).unwrap(),
        "[ ]buy bread\n[*] call mom\n"
    );
}

#[test]
fn edit_absent_index_rewrites_unchanged() {
    let t = load("[ ]buy milk\r\n[*] call mom\n");
    assert_eq!(
        t.edit(&args(&["3", "x"])).unwrap(),
        "[ ]buy milk\n[*] call mom\n"
    );
}

#[test]
fn edit_errors() {
    let t = load("ab\n");
    assert_eq!(t.edit(&args(&["1"])), Err(TodoError::InvalidArgCount));
    assert_eq!(t.edit(&args(&["1", "a", "b"])), Err(TodoError::InvalidArgCount));
    assert_eq!(t.edit(&args(&["1", "a"])), Err(TodoError::LineTooShort));
}

#[test]
fn list_numbers_pending_lines() {
    let t = load("[ ]buy milk\n[ ]walk\n");
    assert_eq!(t.list().unwrap(), "1 uy milk\n2 alk\n");
}

#[test]
fn list_done_line_keeps_number() {
    let out = load("[*] call mom\n").list().unwrap();
    assert!(out.starts_with("1 "));
    assert!(out.contains("call mom"));
    assert_eq!(load("abc\n").list(), Err(TodoError::LineTooShort));
    assert_eq!(load("").list().unwrap(), "");
}

#[test]
fn paths_resolve() {
    assert_eq!(legacy_path("/home/u"), "/home/u/TODO");
    assert_eq!(default_path("/home/u"), "/home/u/.todo");
    assert_eq!(
        resolve_todo_path(Some("/x".to_string()), None, true).unwrap(),
        "/x"
    );
    assert_eq!(
        resolve_todo_path(None, Some("/h".to_string()), true).unwrap(),
        "/h/TODO"
    );
    assert_eq!(
        resolve_todo_path(None, Some("/h".to_string()), false).unwrap(),
        "/h/.todo"
    );
    assert_eq!(resolve_todo_path(None, None, false), Err(TodoError::HomeUnresolved));
    assert_eq!(resolve_backup_path(None), "/tmp/todo.bak");
    assert_eq!(resolve_backup_path(Some("/b".to_string())), "/b");
}

#[test]
fn reset_decisions() {
    let t = load("");
    assert!(t.reset_backs_up());
    assert!(t.reset_deletes(true));
    assert!(!t.reset_deletes(false));
    let u = Todo::new("/t".to_string(), "/b".to_string(), true, "");
    assert!(!u.reset_backs_up());
    assert!(u.reset_deletes(false));
}

#[test]
fn help_text() {
    assert!(help().starts_with("USAGE: todo"));
}
