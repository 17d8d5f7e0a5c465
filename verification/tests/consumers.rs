use kickoff::consumers::{Consumer, ConsumerKind, ExecConsumer, Handoff, StdoutConsumer};
use kickoff::history::History;
use kickoff::launch::{confirm, ChildStatus, LaunchError};
use kickoff::providers::{ProviderItem, ProviderType};

fn item(name: &str, executable: Option<&str>) -> ProviderItem {
    ProviderItem {
        name: name.to_string(),
        provider_type: ProviderType::PATH,
        executable: executable.map(|e| e.to_string()),
        base_score: 0,
    }
}

#[test]
fn consumer_kinds_by_name() {
    assert_eq!(ConsumerKind::from_name("stdout"), Some(ConsumerKind::Stdout));
    assert_eq!(ConsumerKind::from_name("exec"), Some(ConsumerKind::Exec));
    assert_eq!(ConsumerKind::from_name("Exec"), None);
    assert_eq!(ConsumerKind::from_name(""), None);
    assert_eq!(ConsumerKind::from_name("execute"), None);
}

#[test]
fn stdout_consumer_prints_the_name() {
    let mut consumer = StdoutConsumer::new();
    match consumer.run(&item("vim", Some("vim -p"))) {
        Ok(Handoff::Print(line)) => assert_eq!(line, "vim"),
        _ => panic!("the name is to be printed"),
    }
    match consumer.run(&item("note", None)) {
        Ok(Handoff::Print(line)) => assert_eq!(line, "note"),
        _ => panic!("the name is to be printed"),
    }
}

#[test]
fn exec_consumer_launches_the_command_line() {
    let mut consumer = ExecConsumer::new(Some(History::new()));
    match consumer.run(&item("editor", Some("vim -p 'my file'"))) {
        Ok(Handoff::Launch(command)) => {
            assert_eq!(command.program, "vim");
            assert_eq!(command.arguments, vec!["-p".to_string(), "my file".to_string()]);
        },
        _ => panic!("the command is to be launched"),
    }
}

#[test]
fn exec_consumer_refuses_what_cannot_be_launched() {
    let mut consumer = ExecConsumer::new(None);
    assert!(matches!(
        consumer.run(&item("broken", Some("vim \"unclosed"))),
        Err(LaunchError::Parse)
    ));
    assert!(matches!(consumer.run(&item("note", None)), Err(LaunchError::NotExecutable)));
    assert!(matches!(consumer.run(&item("blank", Some(" "))), Err(LaunchError::Empty)));
    assert_eq!(consumer.snapshot().len(), 0);
}

#[test]
fn exec_consumer_hands_out_copies_of_its_history() {
    let mut history = History::new();
    history.insert("vim", 3);
    let mut consumer = ExecConsumer::new(Some(history));
    let item = item("vim", Some("vim"));
    assert!(consumer.run(&item).is_ok());
    let copy = consumer.snapshot();
    let committed = confirm(copy, "vim", ChildStatus::Exited(0)).unwrap();
    assert_eq!(committed.get("vim"), Some(4));
    assert_eq!(consumer.snapshot().get("vim"), Some(3));
}

#[test]
fn exec_consumer_without_history_starts_from_none() {
    let consumer = ExecConsumer::new(None);
    let committed = confirm(consumer.snapshot(), "vim", ChildStatus::StillAlive).unwrap();
    assert_eq!(committed.render(), "vim\t1\n");
}
