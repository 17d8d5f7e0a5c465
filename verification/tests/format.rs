use kickoff::escape::{escape, unescape};
use kickoff::format::{decimal_string, number};
use kickoff::history::History;

#[test]
fn render_writes_one_line_per_record() {
    let mut history = History::new();
    history.insert("vim", 3);
    history.insert("git status", 120);
    history.insert("zero", 0);
    assert_eq!(history.render(), "vim\t3\ngit status\t120\nzero\t0\n");
}

#[test]
fn render_of_empty_history_is_empty() {
    assert_eq!(History::new().render(), "");
}

#[test]
fn render_marks_tabs_line_feeds_and_backslashes_in_names() {
    let mut history = History::new();
    history.insert("good", 1);
    history.insert("with\ttab", 2);
    history.insert("with\nfeed", 3);
    history.insert("back\\slash", 4);
    assert_eq!(
        history.render(),
        "good\t1\nwith\\ttab\t2\nwith\\nfeed\t3\nback\\\\slash\t4\n"
    );
}

#[test]
fn parse_reads_marked_names() {
    let history = History::parse("a\\tb\t2\nc\\\\d\\n\t3\n").unwrap();
    assert_eq!(history.len(), 2);
    assert_eq!(history.get("a\tb"), Some(2));
    assert_eq!(history.get("c\\d\n"), Some(3));
}

#[test]
fn parse_rejects_a_backslash_that_marks_nothing() {
    assert!(History::parse("vi\\m\t3\n").is_none());
    assert!(History::parse("vim\\\t3\n").is_none());
    assert!(History::parse("\\\t3\n").is_none());
}

#[test]
fn parse_tells_a_marked_name_from_a_plain_one() {
    assert!(History::parse("a\\\\t\t1\na\\t\t2\n").is_some());
    assert!(History::parse("a\\t\t1\na\\t\t2\n").is_none());
}

#[test]
fn parse_reads_records_in_order() {
    let history = History::parse("vim\t3\ngit status\t120\n").unwrap();
    assert_eq!(history.len(), 2);
    assert_eq!(history.name_at(0).as_str(), "vim");
    assert_eq!(history.count_at(0), 3);
    assert_eq!(history.name_at(1).as_str(), "git status");
    assert_eq!(history.count_at(1), 120);
}

#[test]
fn parse_of_empty_text_is_empty_history() {
    let history = History::parse("").unwrap();
    assert_eq!(history.len(), 0);
}

#[test]
fn parse_keeps_names_with_other_alphabets() {
    let history = History::parse("caf\u{e9}\t2\n\u{4e16}\u{754c}\t5\n").unwrap();
    assert_eq!(history.get("caf\u{e9}"), Some(2));
    assert_eq!(history.get("\u{4e16}\u{754c}"), Some(5));
}

#[test]
fn parse_rejects_what_is_no_history() {
    assert!(History::parse("vim\t3").is_none());
    assert!(History::parse("vim 3\n").is_none());
    assert!(History::parse("vim\t\n").is_none());
    assert!(History::parse("vim\tthree\n").is_none());
    assert!(History::parse("vim\t-3\n").is_none());
    assert!(History::parse("vim\t3\t4\n").is_none());
    assert!(History::parse("vim\t3\n\n").is_none());
    assert!(History::parse("vim\t3\nvim\t4\n").is_none());
    assert!(History::parse("vim\t99999999999999999999999999\n").is_none());
}

#[test]
fn parse_takes_the_largest_count() {
    let text = format!("top\t{}\n", usize::MAX);
    let history = History::parse(&text).unwrap();
    assert_eq!(history.get("top"), Some(usize::MAX));
    assert_eq!(history.render(), text);
}

#[test]
fn written_history_reads_back() {
    let mut history = History::new();
    history.insert("vim", 3);
    history.insert("", 8);
    history.insert("a b  c", 0);
    history.insert("caf\u{e9}", 41);
    history.insert("tab\there", 5);
    history.insert("two\nlines\\", 6);
    let back = History::parse(&history.render()).unwrap();
    assert_eq!(back.len(), 6);
    let mut i = 0;
    while i < 6 {
        assert_eq!(back.name_at(i), history.name_at(i));
        assert_eq!(back.count_at(i), history.count_at(i));
        i += 1;
    }
}

#[test]
fn fade_halves_counts_and_forgets_zeros() {
    let mut history = History::new();
    history.insert("often", 40);
    history.insert("once", 1);
    history.insert("twice", 2);
    let left = history.fade(7200, 3600);
    assert_eq!(left.len(), 1);
    assert_eq!(left.get("often"), Some(10));
    assert_eq!(left.get("once"), None);
    assert_eq!(left.get("twice"), None);
    let same = history.fade(3599, 3600);
    assert_eq!(same.len(), 3);
    assert_eq!(same.get("once"), Some(1));
}

#[test]
fn load_decays_what_it_reads() {
    let history = History::load("vim\t8\ngit\t1\n", 10, 5);
    assert_eq!(history.get("vim"), Some(2));
    assert_eq!(history.get("git"), None);
    assert_eq!(history.len(), 1);
}

#[test]
fn load_of_corrupt_text_is_empty_history() {
    assert_eq!(History::load("not a history", 0, 5).len(), 0);
    assert_eq!(History::load("vim\t3\ngit", 0, 5).len(), 0);
    assert_eq!(History::load("", 0, 5).len(), 0);
}

#[test]
fn decimal_string_has_no_leading_zeros() {
    assert_eq!(decimal_string(0), "0");
    assert_eq!(decimal_string(7), "7");
    assert_eq!(decimal_string(10), "10");
    assert_eq!(decimal_string(1234567890), "1234567890");
    assert_eq!(decimal_string(usize::MAX), usize::MAX.to_string());
}

#[test]
fn number_reads_digits_only() {
    let chars: Vec<char> = "x007y12".chars().collect();
    assert_eq!(number(&chars, 1, 4), Some(7));
    assert_eq!(number(&chars, 5, 7), Some(12));
    assert_eq!(number(&chars, 0, 4), None);
    assert_eq!(number(&chars, 3, 5), None);
    assert_eq!(number(&chars, 2, 2), None);
}

#[test]
fn escape_writes_a_name_for_a_line() {
    assert_eq!(escape("vim"), "vim");
    assert_eq!(escape(""), "");
    assert_eq!(escape("a\tb"), "a\\tb");
    assert_eq!(escape("a\nb"), "a\\nb");
    assert_eq!(escape("a\\b"), "a\\\\b");
    assert_eq!(escape("\t\n\\"), "\\t\\n\\\\");
    assert_eq!(escape("caf\u{e9}\t\u{4e16}"), "caf\u{e9}\\t\u{4e16}");
    assert_eq!(escape("t n"), "t n");
}

#[test]
fn unescape_reads_a_name_from_a_line() {
    assert_eq!(unescape("vim"), Some("vim".to_string()));
    assert_eq!(unescape(""), Some(String::new()));
    assert_eq!(unescape("a\\tb"), Some("a\tb".to_string()));
    assert_eq!(unescape("a\\nb"), Some("a\nb".to_string()));
    assert_eq!(unescape("a\\\\tb"), Some("a\\tb".to_string()));
    assert_eq!(unescape("caf\u{e9}\\n"), Some("caf\u{e9}\n".to_string()));
    assert_eq!(unescape("a\\"), None);
    assert_eq!(unescape("a\\xb"), None);
    assert_eq!(unescape("\\ "), None);
}

#[test]
fn unescape_undoes_escape() {
    let names = ["", "vim", "a\tb", "\\", "\\t", "\\\\n", "x\n\ny", "\t", "n\\t\\", "\u{e9}\\"];
    for name in names.iter() {
        assert_eq!(unescape(&escape(name)), Some(name.to_string()));
    }
}
