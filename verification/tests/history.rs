use kickoff::history::History;

#[test]
fn new_history_is_empty() {
    let history = History::new();
    assert_eq!(history.len(), 0);
    assert_eq!(history.get("vim"), None);
}

#[test]
fn insert_adds_and_replaces() {
    let mut history = History::new();
    history.insert("vim", 3);
    history.insert("git", 1);
    assert_eq!(history.len(), 2);
    assert_eq!(history.get("vim"), Some(3));
    assert_eq!(history.get("git"), Some(1));
    history.insert("vim", 7);
    assert_eq!(history.len(), 2);
    assert_eq!(history.get("vim"), Some(7));
    assert_eq!(history.name_at(0).as_str(), "vim");
    assert_eq!(history.count_at(0), 7);
    assert_eq!(history.name_at(1).as_str(), "git");
    assert_eq!(history.count_at(1), 1);
}

#[test]
fn names_are_compared_exactly() {
    let mut history = History::new();
    history.insert("vim", 3);
    assert_eq!(history.get("Vim"), None);
    assert_eq!(history.get("vi"), None);
    assert_eq!(history.get("vimdiff"), None);
    assert_eq!(history.get(""), None);
    history.insert("", 2);
    assert_eq!(history.get(""), Some(2));
}

#[test]
fn reward_counts_one_launch() {
    let mut history = History::new();
    history.reward("firefox");
    assert_eq!(history.get("firefox"), Some(1));
    history.reward("firefox");
    history.reward("firefox");
    assert_eq!(history.get("firefox"), Some(3));
    assert_eq!(history.len(), 1);
}

#[test]
fn reward_stops_at_the_largest_count() {
    let mut history = History::new();
    history.insert("top", usize::MAX);
    history.reward("top");
    assert_eq!(history.get("top"), Some(usize::MAX));
}

#[test]
fn clone_is_a_copy_of_its_own() {
    let mut history = History::new();
    history.insert("vim", 3);
    let mut copy = history.clone();
    copy.reward("vim");
    copy.insert("git", 9);
    assert_eq!(history.get("vim"), Some(3));
    assert_eq!(history.get("git"), None);
    assert_eq!(copy.get("vim"), Some(4));
    assert_eq!(copy.get("git"), Some(9));
}
