use kickoff::history::History;
use kickoff::launcher::{Action, Launcher, Outcome};
use kickoff::providers::{ProviderItem, ProviderType};

fn item(name: &str) -> ProviderItem {
    ProviderItem {
        name: name.to_string(),
        provider_type: ProviderType::PATH,
        executable: Some(format!("{} --run", name)),
        base_score: 0,
    }
}

fn launcher(names: &[&str]) -> Launcher {
    Launcher::new(names.iter().map(|n| item(n)).collect(), History::new())
}

#[test]
fn initial_state() {
    let state = launcher(&["git", "grep"]);
    assert_eq!(state.query().as_str(), "");
    assert_eq!(state.selection_index(), 0);
    assert!(!state.select_query_mode());
    assert_eq!(state.ranked_names(), vec!["git".to_string(), "grep".to_string()]);
}

#[test]
fn initial_state_ranks_by_usage() {
    let mut history = History::new();
    history.insert("vim", 4);
    let state = Launcher::new(vec![item("git"), item("ls"), item("vim")], history);
    assert_eq!(state.ranked_names(), vec!["vim".to_string(), "git".to_string(), "ls".to_string()]);
}

#[test]
fn initial_state_without_candidates_selects_the_query() {
    let state = launcher(&[]);
    assert_eq!(state.ranked_len(), 0);
    assert!(state.select_query_mode());
    assert_eq!(state.selection_index(), 0);
}

#[test]
fn complete_cycles() {
    let mut state = launcher(&["git", "grep"]);
    state.search("g".to_string());
    assert_eq!(state.ranked_names(), vec!["git".to_string(), "grep".to_string()]);
    assert!(state.complete());
    assert_eq!(state.query().as_str(), "git");
    assert_eq!(state.selection_index(), 0);
    assert!(state.complete());
    assert_eq!(state.selection_index(), 1);
    assert_eq!(state.query().as_str(), "grep");
    assert!(state.complete());
    assert_eq!(state.selection_index(), 1);
    assert_eq!(state.query().as_str(), "grep");
    assert_eq!(state.ranked_names(), vec!["git".to_string(), "grep".to_string()]);
}

#[test]
fn complete_does_nothing_while_the_query_is_selected() {
    let mut state = launcher(&["git", "grep"]);
    state.search("zzz".to_string());
    assert!(state.select_query_mode());
    assert!(!state.complete());
    assert_eq!(state.query().as_str(), "zzz");
    assert!(matches!(state.step(Action::Complete), Outcome::Idle));
}

#[test]
fn search_twice_is_search_once() {
    let mut state = launcher(&["firefox", "fish", "find", "df"]);
    state.search("fi".to_string());
    let once = state.ranked_names();
    assert_eq!(state.selection_index(), 0);
    state.nav_down();
    assert_eq!(state.selection_index(), 1);
    state.search("fi".to_string());
    assert_eq!(state.ranked_names(), once);
    assert_eq!(state.selection_index(), 0);
    assert!(!state.select_query_mode());
    assert!(!once.contains(&"df".to_string()));
}

#[test]
fn search_without_match_selects_the_query() {
    let mut state = launcher(&["git", "grep"]);
    assert!(matches!(state.step(Action::Search("x".to_string())), Outcome::Redraw));
    assert_eq!(state.ranked_len(), 0);
    assert!(state.select_query_mode());
    assert_eq!(state.query().as_str(), "x");
    state.search("g".to_string());
    assert!(!state.select_query_mode());
    assert_eq!(state.ranked_len(), 2);
}

#[test]
fn nav_down_stops_at_the_end() {
    let mut state = launcher(&["a", "b", "c"]);
    state.nav_down();
    assert_eq!(state.selection_index(), 1);
    state.nav_down();
    assert_eq!(state.selection_index(), 2);
    state.nav_down();
    assert_eq!(state.selection_index(), 2);
    assert!(matches!(state.step(Action::NavDown), Outcome::Redraw));
    assert_eq!(state.selection_index(), 2);
}

#[test]
fn nav_up_at_the_top_selects_a_query_that_is_not_empty() {
    let mut state = launcher(&["git", "grep"]);
    state.nav_up();
    assert!(!state.select_query_mode());
    assert_eq!(state.selection_index(), 0);
    state.search("g".to_string());
    state.nav_down();
    assert_eq!(state.selection_index(), 1);
    state.nav_up();
    assert_eq!(state.selection_index(), 0);
    assert!(!state.select_query_mode());
    state.nav_up();
    assert!(state.select_query_mode());
    state.nav_up();
    assert!(state.select_query_mode());
    state.nav_down();
    assert!(!state.select_query_mode());
    assert_eq!(state.selection_index(), 0);
}

#[test]
fn nav_down_with_empty_list_keeps_the_query_selected() {
    let mut state = launcher(&["git"]);
    state.search("x".to_string());
    state.nav_down();
    assert!(state.select_query_mode());
    assert_eq!(state.selection_index(), 0);
}

#[test]
fn execute_hands_over_the_selected_candidate() {
    let mut state = launcher(&["git", "grep"]);
    state.search("g".to_string());
    state.nav_down();
    match state.step(Action::Execute) {
        Outcome::Launch(chosen) => {
            assert_eq!(chosen.name, "grep");
            assert_eq!(chosen.executable, Some("grep --run".to_string()));
        },
        _ => panic!("the candidate is to be launched"),
    }
}

#[test]
fn execute_hands_over_the_query_when_it_is_selected() {
    let mut state = launcher(&["git", "grep"]);
    state.search("g".to_string());
    state.nav_up();
    assert!(state.select_query_mode());
    let chosen = state.execute();
    assert_eq!(chosen.name, "g");
    assert_eq!(chosen.executable, Some("g".to_string()));
    state.search("htop -d 5".to_string());
    let chosen = state.execute();
    assert_eq!(chosen.name, "htop -d 5");
    assert_eq!(chosen.executable, Some("htop -d 5".to_string()));
}

#[test]
fn exit_ends_the_interaction() {
    let mut state = launcher(&["git"]);
    assert!(matches!(state.step(Action::Exit), Outcome::Exit));
    assert_eq!(state.selection_index(), 0);
    assert!(matches!(state.step(Action::NavUp), Outcome::Redraw));
}

#[test]
fn visible_window_follows_the_selection() {
    let names: Vec<String> = (0..20).map(|i| format!("app{:02}", i)).collect();
    let refs: Vec<&str> = names.iter().map(|n| n.as_str()).collect();
    let mut state = launcher(&refs);
    assert_eq!(state.visible(6), (0, 6));
    let mut i = 0;
    while i < 3 {
        state.nav_down();
        i += 1;
    }
    assert_eq!(state.visible(6), (0, 6));
    state.nav_down();
    assert_eq!(state.selection_index(), 4);
    assert_eq!(state.visible(6), (1, 7));
    while i < 30 {
        state.nav_down();
        i += 1;
    }
    assert_eq!(state.selection_index(), 19);
    assert_eq!(state.visible(6), (16, 20));
    assert_eq!(state.visible(0), (19, 19));
    assert_eq!(state.visible(100), (0, 20));
    assert_eq!(state.visible(usize::MAX), (0, 20));
}

#[test]
fn ranked_item_is_the_candidate() {
    let mut history = History::new();
    history.insert("grep", 3);
    let state = Launcher::new(vec![item("git"), item("grep")], history);
    assert_eq!(state.ranked_item(0).name, "grep");
    assert_eq!(state.ranked_item(1).name, "git");
}
