use kickoff::history::History;
use kickoff::matcher::{fuzzy_score, QUERY_LIMIT};
use kickoff::providers::{ProviderItem, ProviderType};
use kickoff::ranking::{fuzzy_sort, rank, rank_scored, total, totals, weight_of};

fn item(name: &str) -> ProviderItem {
    ProviderItem {
        name: name.to_string(),
        provider_type: ProviderType::PATH,
        executable: Some(name.to_string()),
        base_score: 0,
    }
}

fn items(names: &[&str]) -> Vec<ProviderItem> {
    names.iter().map(|n| item(n)).collect()
}

#[test]
fn fuzzy_score_matches_subsequences_only() {
    assert!(fuzzy_score("axbycz", "abc").is_some());
    assert!(fuzzy_score("axbycz", "xyz").is_some());
    assert!(fuzzy_score("firefox", "ffx").is_some());
    assert_eq!(fuzzy_score("abc", "abx"), None);
    assert_eq!(fuzzy_score("abc", "cba"), None);
    assert_eq!(fuzzy_score("", "a"), None);
    assert_eq!(fuzzy_score("ab", "abc"), None);
}

#[test]
fn fuzzy_score_of_empty_query_is_zero() {
    assert_eq!(fuzzy_score("anything", ""), Some(0));
    assert_eq!(fuzzy_score("", ""), Some(0));
}

#[test]
fn fuzzy_score_regards_case_only_for_upper_case_queries() {
    assert!(fuzzy_score("Firefox", "fire").is_some());
    assert!(fuzzy_score("Firefox", "Fire").is_some());
    assert_eq!(fuzzy_score("firefox", "Fire"), None);
    assert!(fuzzy_score("FIREFOX", "fox").is_some());
}

#[test]
fn fuzzy_score_prefers_the_closer_match() {
    let near = fuzzy_score("vim", "vim").unwrap();
    let far = fuzzy_score("v-i-m-diff", "vim").unwrap();
    assert!(near > far);
    assert_eq!(fuzzy_score("vim", "vim"), fuzzy_score("vim", "vim"));
}

#[test]
fn fuzzy_score_does_not_depend_on_earlier_calls() {
    let alone = fuzzy_score("aab", "ab");
    let _ = fuzzy_score("a-very-long-other-candidate-name", "avon");
    let _ = fuzzy_score("xxaxxbxx", "ab");
    assert_eq!(fuzzy_score("aab", "ab"), alone);
}

#[test]
fn fuzzy_score_stops_at_the_limit() {
    assert_eq!(QUERY_LIMIT, (1 << 26) - 1);
    let long = "a".repeat(QUERY_LIMIT + 1);
    assert_eq!(fuzzy_score(&long, &long), None);
    assert_eq!(fuzzy_score("a", &long), None);
    assert_eq!(fuzzy_score(&long, ""), Some(0));
}

#[test]
fn fuzzy_score_takes_names_of_any_length() {
    let mut name = "x".repeat(70_000);
    name.push_str("vim");
    assert!(fuzzy_score(&name, "vim").is_some());
    assert!(fuzzy_score(&name, "xv").is_some());
    assert_eq!(fuzzy_score(&name, "vimx"), None);
    let candidates = vec![ProviderItem {
        name: name.clone(),
        provider_type: ProviderType::PATH,
        executable: None,
        base_score: 0,
    }];
    assert_eq!(rank(&candidates, "vim", &History::new()), vec![0]);
}

#[test]
fn weight_is_the_count_or_one() {
    let mut history = History::new();
    history.insert("vim", 9);
    history.insert("never", 0);
    assert_eq!(weight_of(&history, "vim"), 9);
    assert_eq!(weight_of(&history, "never"), 0);
    assert_eq!(weight_of(&history, "unknown"), 1);
}

#[test]
fn rank_excludes_what_the_query_does_not_match() {
    let candidates = items(&["git", "ls", "grep", "cat", "gcc"]);
    let order = rank(&candidates, "g", &History::new());
    let mut sorted = order.clone();
    sorted.sort();
    assert_eq!(sorted, vec![0, 2, 4]);
    assert_eq!(rank(&candidates, "zzz", &History::new()), Vec::<usize>::new());
}

#[test]
fn rank_of_no_candidates_is_empty() {
    assert_eq!(rank(&Vec::new(), "", &History::new()), Vec::<usize>::new());
    assert_eq!(rank(&Vec::new(), "vim", &History::new()), Vec::<usize>::new());
}

#[test]
fn rank_with_empty_query_goes_by_weight() {
    let candidates = items(&["awk", "git", "ls", "vim", "zsh"]);
    let mut history = History::new();
    history.insert("vim", 10);
    history.insert("git", 3);
    history.insert("zsh", 3);
    assert_eq!(rank(&candidates, "", &history), vec![3, 1, 4, 0, 2]);
}

#[test]
fn rank_with_empty_query_and_no_history_keeps_the_enumeration() {
    let candidates = items(&["c", "a", "b", "a"]);
    assert_eq!(rank(&candidates, "", &History::new()), vec![0, 1, 2, 3]);
}

#[test]
fn rank_breaks_ties_by_enumeration() {
    let candidates = items(&["git", "grep", "git"]);
    assert_eq!(rank(&candidates, "g", &History::new()), vec![0, 1, 2]);
    let flipped = items(&["grep", "git"]);
    assert_eq!(rank(&flipped, "g", &History::new()), vec![0, 1]);
}

#[test]
fn rank_adds_the_usage_weight_to_the_match() {
    let candidates = items(&["git", "grep"]);
    let mut history = History::new();
    history.insert("grep", 5);
    assert_eq!(rank(&candidates, "g", &history), vec![1, 0]);
    let base = fuzzy_score("git", "g").unwrap();
    assert_eq!(fuzzy_score("grep", "g").unwrap(), base);
}

#[test]
fn rank_takes_the_largest_weights_without_wrapping() {
    let candidates = items(&["git", "grep", "gcc"]);
    let mut history = History::new();
    history.insert("grep", usize::MAX);
    history.insert("gcc", usize::MAX - 1);
    assert_eq!(rank(&candidates, "g", &history), vec![1, 2, 0]);
    assert_eq!(rank(&candidates, "", &history), vec![1, 2, 0]);
}

#[test]
fn rank_is_the_same_each_time() {
    let candidates = items(&["firefox", "fish", "file", "find", "ffmpeg", "df"]);
    let mut history = History::new();
    history.insert("fish", 2);
    let first = rank(&candidates, "fi", &history);
    let second = rank(&candidates, "fi", &history);
    assert_eq!(first, second);
    assert!(!first.contains(&5));
    assert!(!first.contains(&4));
}

#[test]
fn fuzzy_sort_hands_out_the_candidates() {
    let candidates = items(&["git", "ls", "grep"]);
    let mut history = History::new();
    history.insert("grep", 5);
    let ranked = fuzzy_sort(&candidates, "g", &history);
    let names: Vec<&str> = ranked.iter().map(|i| i.name.as_str()).collect();
    assert_eq!(names, vec!["grep", "git"]);
}

#[test]
fn total_adds_the_weight_to_the_score() {
    assert_eq!(total(Some(31), 5), Some(36));
    assert_eq!(total(Some(-7), 0), Some(-7));
    assert_eq!(total(None, 5), None);
    assert_eq!(
        total(Some(i64::MAX), usize::MAX),
        Some(i64::MAX as i128 + usize::MAX as i128)
    );
}

#[test]
fn rank_scored_sorts_the_places_that_have_a_total() {
    let list = vec![Some(3), None, Some(10), Some(3), None, Some(-1), Some(10)];
    assert_eq!(rank_scored(&list), vec![2, 6, 0, 3, 5]);
    assert_eq!(rank_scored(&vec![None, None]), Vec::<usize>::new());
    assert_eq!(rank_scored(&Vec::new()), Vec::<usize>::new());
    assert_eq!(rank_scored(&vec![Some(i128::MIN), Some(i128::MAX)]), vec![1, 0]);
}

#[test]
fn totals_hold_score_plus_weight() {
    let candidates = items(&["git", "ls", "grep"]);
    let mut history = History::new();
    history.insert("grep", 5);
    let base = fuzzy_score("git", "g").unwrap() as i128;
    assert_eq!(totals(&candidates, "g", &history), vec![Some(base + 1), None, Some(base + 5)]);
    assert_eq!(totals(&candidates, "", &history), vec![Some(1), Some(1), Some(5)]);
}
