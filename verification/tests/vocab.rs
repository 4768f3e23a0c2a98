use vocab_count::counts::get_counts;
use vocab_count::counts::tokenize;
use vocab_count::freq::Entry;
use vocab_count::freq::FrequencyMap;
use vocab_count::lines::from_lines;
use vocab_count::lines::parse_line;
use vocab_count::lines::to_lines;
use vocab_count::reduce::filter_counts;

fn lines_of(texts: &[&str]) -> Vec<String> {
    texts.iter().map(|t| String::from(*t)).collect()
}

fn get(fm: &FrequencyMap, token: &str) -> Option<u64> {
    fm.get(&String::from(token))
}

fn sum_counts(fm: &FrequencyMap) -> u64 {
    fm.entries.iter().map(|e| e.count).sum()
}

fn map_from(pairs: &[(&str, u64)]) -> FrequencyMap {
    let mut entries = Vec::new();
    for (t, c) in pairs {
        entries.push(Entry { token: String::from(*t), count: *c });
    }
    FrequencyMap { entries }
}

#[test]
fn tokenize_splits_on_whitespace_runs() {
    let toks = tokenize("  a \t b  ");
    assert_eq!(toks, vec![String::from("a"), String::from("b")]);
    assert!(tokenize("").is_empty());
    assert!(tokenize(" \t ").is_empty());
    assert_eq!(tokenize("one"), vec![String::from("one")]);
}

#[test]
fn counts_no_bounds() {
    // input `["a b a", "b c"]`, no bounds: {a:2, b:2, c:1}
    let counts = get_counts(&lines_of(&["a b a", "b c"]));
    let reduced = filter_counts(counts, None, None);
    assert_eq!(reduced.len(), 3);
    assert_eq!(get(&reduced, "a"), Some(2));
    assert_eq!(get(&reduced, "b"), Some(2));
    assert_eq!(get(&reduced, "c"), Some(1));
}

#[test]
fn counts_sum_to_token_total() {
    let counts = get_counts(&lines_of(&["a b a", "b c"]));
    assert_eq!(sum_counts(&counts), 5);
    let counts = get_counts(&lines_of(&["x  x x\tx", "", "  ", "y"]));
    assert_eq!(sum_counts(&counts), 5);
}

#[test]
fn min_count_keeps_at_least() {
    // same input, min_count=2: {a:2, b:2}
    let counts = get_counts(&lines_of(&["a b a", "b c"]));
    let reduced = filter_counts(counts, Some(2), None);
    assert_eq!(reduced.len(), 2);
    assert_eq!(get(&reduced, "a"), Some(2));
    assert_eq!(get(&reduced, "b"), Some(2));
    assert_eq!(get(&reduced, "c"), None);
}

#[test]
fn max_vocab_keeps_highest() {
    // same input, max_vocab=1: one of the count-2 tokens stays, c never
    let counts = get_counts(&lines_of(&["a b a", "b c"]));
    let reduced = filter_counts(counts, None, Some(1));
    assert_eq!(reduced.len(), 1);
    assert_eq!(get(&reduced, "c"), None);
    let kept = &reduced.entries[0];
    assert!(kept.token == "a" || kept.token == "b");
    assert_eq!(kept.count, 2);
}

#[test]
fn empty_input_stays_empty() {
    let counts = get_counts(&Vec::new());
    let reduced = filter_counts(counts, Some(3), Some(7));
    assert_eq!(reduced.len(), 0);
}

#[test]
fn reduction_is_idempotent() {
    let counts = get_counts(&lines_of(&["a a a b b c d d d d", "e e b"]));
    let once = filter_counts(counts, Some(2), Some(3));
    let mut first: Vec<(String, u64)> =
        once.entries.iter().map(|e| (e.token.clone(), e.count)).collect();
    let twice = filter_counts(once, Some(2), Some(3));
    let mut second: Vec<(String, u64)> =
        twice.entries.iter().map(|e| (e.token.clone(), e.count)).collect();
    first.sort();
    second.sort();
    assert_eq!(first, second);
}

#[test]
fn min_count_never_grows_vocabulary() {
    let counts = get_counts(&lines_of(&["a a b c c c d"]));
    let n0 = counts.len();
    let reduced = filter_counts(counts, Some(2), None);
    assert!(reduced.len() <= n0);
    assert_eq!(reduced.len(), 2);
}

#[test]
fn max_vocab_bounds_size_exactly() {
    let counts = get_counts(&lines_of(&["a a a b b c"]));
    assert_eq!(counts.len(), 3);
    let reduced = filter_counts(counts, None, Some(2));
    assert_eq!(reduced.len(), 2);
    let counts = get_counts(&lines_of(&["a a a b b c"]));
    let reduced = filter_counts(counts, None, Some(9));
    assert_eq!(reduced.len(), 3);
}

#[test]
fn filter_then_truncate_composes() {
    // distinct counts, so the selection is unambiguous
    let texts = ["a", "b b", "c c c", "d d d d", "e e e e e"];
    let both = filter_counts(get_counts(&lines_of(&texts)), Some(2), Some(2));
    let staged = filter_counts(
        filter_counts(get_counts(&lines_of(&texts)), Some(2), None),
        None,
        Some(2),
    );
    assert_eq!(both.len(), staged.len());
    assert_eq!(both.len(), 2);
    assert_eq!(get(&both, "e"), Some(5));
    assert_eq!(get(&both, "d"), Some(4));
    assert_eq!(get(&staged, "e"), Some(5));
    assert_eq!(get(&staged, "d"), Some(4));
}

#[test]
fn serialized_lines_have_expected_form() {
    let fm = map_from(&[("alpha", 10), ("x", 1)]);
    let lines = to_lines(&fm);
    assert_eq!(lines, vec![String::from("alpha 10"), String::from("x 1")]);
}

#[test]
fn round_trip_reconstructs_the_map() {
    let counts = get_counts(&lines_of(&["to be or not to be", "that is the question"]));
    let total = counts.len();
    let lines = to_lines(&counts);
    let back = from_lines(&lines).expect("serialized lines must parse");
    assert_eq!(back.len(), total);
    for e in counts.entries.iter() {
        assert_eq!(back.get(&e.token), Some(e.count));
    }
}

#[test]
fn parse_line_accepts_only_entry_lines() {
    let e = parse_line("word 42").expect("a plain entry line parses");
    assert_eq!(e.token, "word");
    assert_eq!(e.count, 42);
    let e = parse_line("x 18446744073709551615").expect("the largest count parses");
    assert_eq!(e.count, u64::MAX);
    assert!(parse_line("").is_none());
    assert!(parse_line("word").is_none());
    assert!(parse_line(" 5").is_none());
    assert!(parse_line("word 05").is_none());
    assert!(parse_line("word 0").is_none());
    assert!(parse_line("word x1").is_none());
    assert!(parse_line("word\t5").is_none());
    assert!(parse_line("two words 5").is_none());
    assert!(parse_line("word 18446744073709551616").is_none());
    assert!(parse_line("word 5 ").is_none());
}

#[test]
fn from_lines_rejects_duplicates_and_junk() {
    let ok = from_lines(&lines_of(&["a 1", "b 2"])).expect("distinct entries parse");
    assert_eq!(ok.len(), 2);
    assert!(from_lines(&lines_of(&["a 1", "a 2"])).is_none());
    assert!(from_lines(&lines_of(&["a 1", "nonsense"])).is_none());
}

#[test]
fn unicode_whitespace_separates_tokens() {
    let counts = get_counts(&lines_of(&["a\u{a0}b a"]));
    assert_eq!(get(&counts, "a"), Some(2));
    assert_eq!(get(&counts, "b"), Some(1));
}
