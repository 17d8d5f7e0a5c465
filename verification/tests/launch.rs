use kickoff::history::History;
use kickoff::launch::{
    command, confirm, is_success, plan, ChildStatus, LaunchError, EXEC_FAILED_STATUS,
    GRACE_PERIOD_SECS,
};

fn words(list: &[&str]) -> Vec<String> {
    list.iter().map(|w| w.to_string()).collect()
}

#[test]
fn plan_splits_as_the_shell_does() {
    let line = "a \"b b\" a".to_string();
    let planned = plan(Some(&line)).unwrap();
    assert_eq!(planned.program, "a");
    assert_eq!(planned.arguments, words(&["b b", "a"]));
    let line = "firefox --new-window 'https://example.org/a b'".to_string();
    let planned = plan(Some(&line)).unwrap();
    assert_eq!(planned.program, "firefox");
    assert_eq!(planned.arguments, words(&["--new-window", "https://example.org/a b"]));
    let line = "one\\ word".to_string();
    let planned = plan(Some(&line)).unwrap();
    assert_eq!(planned.program, "one word");
    assert_eq!(planned.arguments, Vec::<String>::new());
}

#[test]
fn plan_fails_on_mismatched_quotes() {
    let line = "a \"b c d e".to_string();
    assert_eq!(plan(Some(&line)).err(), Some(LaunchError::Parse));
    let line = "a 'b c d e".to_string();
    assert_eq!(plan(Some(&line)).err(), Some(LaunchError::Parse));
}

#[test]
fn plan_fails_without_a_command_line() {
    assert_eq!(plan(None).err(), Some(LaunchError::NotExecutable));
}

#[test]
fn plan_fails_on_a_line_without_a_word() {
    let line = String::new();
    assert_eq!(plan(Some(&line)).err(), Some(LaunchError::Empty));
    let line = "   ".to_string();
    assert_eq!(plan(Some(&line)).err(), Some(LaunchError::Empty));
}

#[test]
fn command_takes_the_first_word_as_program() {
    let made = command(Some(words(&["ls", "-l", "/tmp"]))).unwrap();
    assert_eq!(made.program, "ls");
    assert_eq!(made.arguments, words(&["-l", "/tmp"]));
    let made = command(Some(words(&["ls"]))).unwrap();
    assert_eq!(made.program, "ls");
    assert_eq!(made.arguments, Vec::<String>::new());
    assert_eq!(command(Some(Vec::new())).err(), Some(LaunchError::Empty));
    assert_eq!(command(None).err(), Some(LaunchError::Parse));
}

#[test]
fn launch_errors_have_messages() {
    assert_eq!(LaunchError::NotExecutable.to_string(), "Item is not executable");
    assert_eq!(LaunchError::Parse.to_string(), "Mismatched quotes");
    assert_eq!(LaunchError::Empty.to_string(), "Empty command");
}

#[test]
fn success_is_running_or_exit_zero() {
    assert!(is_success(ChildStatus::StillAlive));
    assert!(is_success(ChildStatus::Exited(0)));
    assert!(!is_success(ChildStatus::Exited(1)));
    assert!(!is_success(ChildStatus::Exited(EXEC_FAILED_STATUS)));
    assert!(!is_success(ChildStatus::Exited(-1)));
    assert!(!is_success(ChildStatus::Other));
    assert!(!is_success(ChildStatus::ProbeFailed));
}

#[test]
fn constants_of_the_launch() {
    assert_eq!(GRACE_PERIOD_SECS, 1);
    assert_eq!(EXEC_FAILED_STATUS, 2);
}

#[test]
fn confirm_rewards_exit_zero_by_exactly_one() {
    let mut history = History::new();
    history.insert("vim", 3);
    history.insert("git", 7);
    let after = confirm(history.clone(), "vim", ChildStatus::Exited(0)).unwrap();
    assert_eq!(after.get("vim"), Some(4));
    assert_eq!(after.get("git"), Some(7));
    assert_eq!(after.len(), 2);
    assert_eq!(after.render(), "vim\t4\ngit\t7\n");
}

#[test]
fn confirm_rewards_a_child_that_still_runs() {
    let after = confirm(History::new(), "firefox", ChildStatus::StillAlive).unwrap();
    assert_eq!(after.get("firefox"), Some(1));
    assert_eq!(after.len(), 1);
}

#[test]
fn confirm_commits_nothing_after_exit_two() {
    let mut history = History::new();
    history.insert("vim", 3);
    assert!(confirm(history.clone(), "vim", ChildStatus::Exited(2)).is_none());
    assert!(confirm(history.clone(), "vim", ChildStatus::Exited(127)).is_none());
    assert!(confirm(history.clone(), "vim", ChildStatus::Other).is_none());
    assert!(confirm(history.clone(), "vim", ChildStatus::ProbeFailed).is_none());
    assert_eq!(history.get("vim"), Some(3));
}

#[test]
fn confirm_counts_a_name_with_a_tab_in_what_is_committed() {
    let after = confirm(History::new(), "odd\tname", ChildStatus::Exited(0)).unwrap();
    let text = after.render();
    assert_eq!(text, "odd\\tname\t1\n");
    assert_eq!(History::parse(&text).unwrap().get("odd\tname"), Some(1));
}
