use qrun::backlog::{first_backlog, history_file_name, is_backlog_name, lock_marker_name};
use qrun::splitter::command_of;

fn strings(items: &[&str]) -> Vec<String> {
    items.iter().map(|s| s.to_string()).collect()
}

#[test]
fn backlog_names_end_in_bl() {
    assert!(is_backlog_name("tasks.bl"));
    assert!(is_backlog_name("a.bl"));
    assert!(is_backlog_name("archive.tar.bl"));
    assert!(is_backlog_name("..bl"));
    assert!(is_backlog_name("é.bl"));
}

#[test]
fn other_names_are_no_backlogs() {
    assert!(!is_backlog_name(""));
    assert!(!is_backlog_name("bl"));
    assert!(!is_backlog_name(".bl"));
    assert!(!is_backlog_name("tasks.txt"));
    assert!(!is_backlog_name("tasks.BL"));
    assert!(!is_backlog_name("tasks.bl.swp"));
    assert!(!is_backlog_name("tasksbl"));
    assert!(!is_backlog_name("tasks.bl "));
    assert!(!is_backlog_name("qrun_history.log"));
}

#[test]
fn backlog_names_agree_with_path_extension() {
    let names = ["a.bl", ".bl", "..bl", "bl", "x.bl.swp", ".a.bl", "a.b.bl", "a.", "a.blx", "é.bl", "abc"];
    for name in names {
        let expected = std::path::Path::new(name).extension().and_then(|s| s.to_str()) == Some("bl");
        assert_eq!(is_backlog_name(name), expected, "name {:?}", name);
    }
}

#[test]
fn first_backlog_is_lowest_match() {
    assert_eq!(first_backlog(&strings(&["notes.txt", "b.bl", "a.bl"])), Some(1));
    assert_eq!(first_backlog(&strings(&["a.bl"])), Some(0));
    assert_eq!(first_backlog(&strings(&["qrun_history.log", ".a.bl.swp"])), None);
    assert_eq!(first_backlog(&Vec::new()), None);
}

#[test]
fn lock_marker_has_dot_and_swp() {
    assert_eq!(lock_marker_name("tasks.bl"), ".tasks.bl.swp");
    assert_eq!(lock_marker_name(""), "..swp");
}

#[test]
fn history_file_has_fixed_name() {
    assert_eq!(history_file_name(), "qrun_history.log");
}

#[test]
fn command_of_parts_executable_and_arguments() {
    let (program, arguments) = command_of(String::from("ls -la --env=\"VAR VAR\" -h")).unwrap();
    assert_eq!(program, "ls");
    assert_eq!(arguments, vec!["-la", "--env=\"VAR VAR\"", "-h"]);
    let (program, arguments) = command_of(String::from("  true ")).unwrap();
    assert_eq!(program, "true");
    assert!(arguments.is_empty());
}

#[test]
fn command_of_blank_task_is_none() {
    assert!(command_of(String::new()).is_none());
    assert!(command_of(String::from("   ")).is_none());
    assert!(command_of(String::from("\t \r")).is_none());
}

#[test]
fn command_of_parts_at_tab() {
    let (program, arguments) = command_of(String::from("ls\t-la")).unwrap();
    assert_eq!(program, "ls");
    assert_eq!(arguments, vec!["-la"]);
}
