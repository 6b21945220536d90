use run_mailcap::text::chars_of;
use run_mailcap::text::copy_range;
use run_mailcap::text::find;
use run_mailcap::text::last_part;
use run_mailcap::text::lines;
use run_mailcap::text::occurs_once;
use run_mailcap::text::same_chars;
use run_mailcap::text::spells;
use run_mailcap::text::split;
use run_mailcap::text::split_words;
use run_mailcap::text::string_of;
use run_mailcap::text::trimmed;

fn strings(parts: Vec<Vec<char>>) -> Vec<String> {
    parts.iter().map(|part| string_of(part)).collect()
}

#[test]
fn characters_and_back() {
    assert_eq!(chars_of("a\u{e9}\u{1f600}"), vec!['a', '\u{e9}', '\u{1f600}']);
    assert_eq!(string_of(&['a', '\u{e9}', '\u{1f600}']), "a\u{e9}\u{1f600}");
    assert_eq!(chars_of(""), Vec::<char>::new());
    assert_eq!(string_of(&[]), "");
}

#[test]
fn ranges_and_comparisons() {
    let chars = chars_of("hello");
    assert_eq!(copy_range(&chars, 1, 3), vec!['e', 'l']);
    assert_eq!(copy_range(&chars, 2, 2), Vec::<char>::new());
    assert!(same_chars(&chars, &chars_of("hello")));
    assert!(!same_chars(&chars, &chars_of("hellp")));
    assert!(!same_chars(&chars, &chars_of("hell")));
    assert!(spells(&chars, "hello"));
    assert!(!spells(&chars, "Hello"));
}

#[test]
fn finding_a_character() {
    let chars = chars_of("a/b/c");
    assert_eq!(find(&chars, 0, '/'), 1);
    assert_eq!(find(&chars, 1, '/'), 1);
    assert_eq!(find(&chars, 2, '/'), 3);
    assert_eq!(find(&chars, 4, '/'), 5);
    assert_eq!(find(&chars, 5, '/'), 5);
    assert_eq!(find(&chars, 0, 'x'), 5);
}

#[test]
fn splitting_keeps_empty_pieces() {
    assert_eq!(strings(split(&chars_of("a;b;c"), ';')), vec!["a", "b", "c"]);
    assert_eq!(strings(split(&chars_of(";a;;"), ';')), vec!["", "a", "", ""]);
    assert_eq!(strings(split(&chars_of(""), ';')), vec![""]);
    assert_eq!(strings(split(&chars_of("abc"), ';')), vec!["abc"]);
}

#[test]
fn trimming_removes_outer_whitespace_only() {
    let chars = chars_of(" \t a b \u{2003}\n");
    assert_eq!(string_of(&trimmed(&chars, 0, chars.len())), "a b");
    assert_eq!(string_of(&trimmed(&chars, 3, 6)), "a b");
    assert_eq!(string_of(&trimmed(&chars, 4, 5)), "");
    assert_eq!(string_of(&trimmed(&chars, 0, 3)), "");
    assert_eq!(string_of(&trimmed(&chars_of("ab"), 0, 2)), "ab");
}

#[test]
fn lines_of_a_text() {
    assert_eq!(strings(lines(&chars_of("a\nb\r\nc"))), vec!["a", "b", "c"]);
    assert_eq!(strings(lines(&chars_of("a\n\n"))), vec!["a", ""]);
    assert_eq!(strings(lines(&chars_of("\r\n\r"))), vec!["", "\r"]);
    assert_eq!(strings(lines(&chars_of("a\r\r\n"))), vec!["a\r"]);
    assert!(lines(&chars_of("")).is_empty());
}

#[test]
fn words_of_a_text() {
    assert_eq!(strings(split_words(&chars_of("  a bc\t\td \n"))), vec!["a", "bc", "d"]);
    assert_eq!(strings(split_words(&chars_of("abc"))), vec!["abc"]);
    assert!(split_words(&chars_of(" \t")).is_empty());
    assert!(split_words(&chars_of("")).is_empty());
}

#[test]
fn part_after_the_last_separator() {
    assert_eq!(string_of(&last_part(&chars_of("/usr/bin/see"), '/')), "see");
    assert_eq!(string_of(&last_part(&chars_of("see"), '/')), "see");
    assert_eq!(string_of(&last_part(&chars_of("dir/"), '/')), "");
    assert_eq!(string_of(&last_part(&chars_of(""), '/')), "");
}

#[test]
fn counting_to_one() {
    assert!(occurs_once(&chars_of("text/plain"), '/'));
    assert!(!occurs_once(&chars_of("text"), '/'));
    assert!(!occurs_once(&chars_of("a/b/c"), '/'));
    assert!(!occurs_once(&chars_of(""), '/'));
}
