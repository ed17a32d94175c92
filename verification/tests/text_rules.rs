use synapcmd::util::{calculate_goto_score, match_disorder, match_disorder_count, strip_ansi, unwrap_quotes_filename};

#[test]
fn match_disorder_basic() {
    let filters = vec!["ab".to_string(), "cd".to_string()];
    assert!(match_disorder("xxabyycdzz", &filters));
    let filters2 = vec!["ab".to_string(), "cd".to_string()];
    assert!(!match_disorder("abyyzz", &filters2));
}

#[test]
fn match_disorder_count_partial() {
    let filters = vec!["aa".to_string(), "bb".to_string()];
    assert_eq!(match_disorder_count("aabbcc", &filters), 2);
    assert_eq!(match_disorder_count("aacc", &filters), 1);
}

#[test]
fn match_disorder_count_all_fragments() {
    let filters = vec!["aa".to_string(), "bb".to_string(), "cc".to_string()];
    assert_eq!(match_disorder_count("aabbcc", &filters), 3);
    assert_eq!(match_disorder_count("aacc", &filters), 2);
}

#[test]
fn test_strip_ansi() {
    let input = "\x1b[31mred\x1b[0m text";
    assert_eq!(strip_ansi(input), "red text");
}

#[test]
fn test_unwrap_quotes_filename() {
    assert_eq!(unwrap_quotes_filename("\"file name\""), "file name");
    assert_eq!(unwrap_quotes_filename("\"file\\\"name\""), "file\"name");
    assert_eq!(unwrap_quotes_filename("plain_name"), "plain_name");
}

#[test]
fn test_calculate_goto_score() {
    let frags = vec!["abc".to_string()];
    let exact = calculate_goto_score("abc", "abc", &frags);
    let prefix = calculate_goto_score("abcd", "abc", &frags);
    let inner = calculate_goto_score("xabcy", "abc", &frags);
    let miss = calculate_goto_score("def", "abc", &frags);
    assert!(exact > prefix);
    assert!(prefix > inner);
    assert!(inner > 0);
    assert_eq!(miss, 0);
}

#[test]
fn goto_score_values() {
    let frags = vec!["abc".to_string()];
    assert_eq!(calculate_goto_score("abc", "abc", &frags), 110);
    assert_eq!(calculate_goto_score("abcd", "abc", &frags), 60);
    assert_eq!(calculate_goto_score("xabcy", "abc", &frags), 10);
}

#[test]
fn strip_ansi_removes_carriage_returns() {
    assert_eq!(strip_ansi("line\r\nnext\r"), "line\nnext");
}

#[test]
fn unwrap_quotes_trims_whitespace() {
    assert_eq!(unwrap_quotes_filename("  spaced  "), "spaced");
}
