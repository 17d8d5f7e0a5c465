use kickoff::aggregate::aggregate;
use kickoff::providers::{ProviderItem, ProviderType};
use kickoff::text::{str_before, str_eq};

fn item(name: &str, base_score: usize) -> ProviderItem {
    ProviderItem {
        name: name.to_string(),
        provider_type: ProviderType::PATH,
        executable: Some(name.to_string()),
        base_score,
    }
}

#[test]
fn aggregate_sorts_by_name_and_keeps_the_first_of_each() {
    let items = vec![
        item("vim", 1),
        item("git", 2),
        item("awk", 3),
        item("git", 4),
        item("vim", 5),
        item("zsh", 6),
        item("awk", 7),
    ];
    let out = aggregate(&items);
    let names: Vec<&str> = out.iter().map(|i| i.name.as_str()).collect();
    assert_eq!(names, vec!["awk", "git", "vim", "zsh"]);
    let scores: Vec<usize> = out.iter().map(|i| i.base_score).collect();
    assert_eq!(scores, vec![3, 2, 1, 6]);
}

#[test]
fn aggregate_orders_as_strings_are_ordered() {
    let mut names = vec!["b", "B", "a", "ab", "", "\u{e9}", "z", "a b", "10", "9", "\u{4e16}"];
    let items: Vec<ProviderItem> = names.iter().map(|n| item(n, 0)).collect();
    let out = aggregate(&items);
    names.sort();
    let got: Vec<&str> = out.iter().map(|i| i.name.as_str()).collect();
    assert_eq!(got, names);
}

#[test]
fn aggregate_of_nothing_is_nothing() {
    assert_eq!(aggregate(&Vec::new()).len(), 0);
}

#[test]
fn str_before_is_the_order_of_strings() {
    let words = ["", "a", "A", "ab", "b", "\u{e9}", "\u{4e16}\u{754c}", "a\u{e9}", "zz"];
    for a in words.iter() {
        for b in words.iter() {
            assert_eq!(str_before(a, b), a < b);
            assert_eq!(str_eq(a, b), a == b);
        }
    }
}
