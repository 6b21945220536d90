use run_mailcap::error::LookupError;
use run_mailcap::mailcap::get_entries;
use run_mailcap::mailcap::mime_types_match;
use run_mailcap::mailcap::parse_line;
use run_mailcap::mailcap::parse_mailcap;
use run_mailcap::mailcap::MailcapEntry;

const MAILCAP: &str = "# viewers\n\
text/plain; less '%s'; edit=vi '%s'; test=test \"$DISPLAY\" != \"\"; needsterminal\n\
#text/plain; cat '%s'\n\
image/png; display '%s'\n";

const MAILCAP_WILDCARD: &str = "text/plain; less '%s'; \\\n\
edit=vi '%s'; test=test \"$DISPLAY\" != \"\"; needsterminal\n\
video/x-matroska; mpv '%s'\n\
text/*; cat '%s'\n\
video/*; mplayer '%s'\n\
\n\
*/*; hexdump '%s'\n";

fn one_file(content: &str) -> Vec<Option<String>> {
    vec![Some(String::from(content))]
}

#[test]
fn test_mailcap_nonexistantfile() {
    let files: Vec<Option<String>> = vec![None];
    let results = get_entries(&files, "text/plain").unwrap_err();
    assert_eq!(results, LookupError::DatabaseNotFound);
}

#[test]
fn test_mailcap_nonexistantentry() {
    let results = get_entries(&one_file(MAILCAP), "text/foo").unwrap();
    assert_eq!(results.len(), 0);
}

#[test]
fn test_mailcap_singleentry() {
    let results = get_entries(&one_file(MAILCAP), "text/plain").unwrap();
    assert_eq!(results.len(), 1);
    assert_eq!(results[0].view, "less '%s'");
    assert_eq!(results[0].edit, "vi '%s'");
    assert_eq!(results[0].test, "test \"$DISPLAY\" != \"\"");
    assert_eq!(results[0].needsterminal, true);
}

#[test]
fn test_mailcap_wildcardentry() {
    let files = one_file(MAILCAP_WILDCARD);
    let results = get_entries(&files, "text/plain").unwrap();
    assert_eq!(results.len(), 3);
    assert_eq!(results[0].view, "less '%s'");
    assert_eq!(results[0].edit, "vi '%s'");
    assert_eq!(results[0].test, "test \"$DISPLAY\" != \"\"");
    assert_eq!(results[0].needsterminal, true);
    assert_eq!(results[1].view, "cat '%s'");
    assert_eq!(results[2].view, "hexdump '%s'");

    let results = get_entries(&files, "video/x-matroska").unwrap();
    assert_eq!(results.len(), 3);
    assert_eq!(results[0].view, "mpv '%s'");
    assert_eq!(results[1].view, "mplayer '%s'");
    assert_eq!(results[2].view, "hexdump '%s'");
}

#[test]
fn test_mailcap_ignorecomments() {
    let results = get_entries(&one_file(MAILCAP), "#text/plain").unwrap();
    assert_eq!(results.len(), 0);
}

#[test]
fn no_file_at_all_is_not_found() {
    let files: Vec<Option<String>> = Vec::new();
    assert_eq!(get_entries(&files, "text/plain").unwrap_err(), LookupError::DatabaseNotFound);
    assert_eq!(LookupError::DatabaseNotFound.message(), "No usable mailcap file found");
}

#[test]
fn missing_files_are_skipped_and_order_is_kept() {
    let files = vec![
        None,
        Some(String::from("text/plain; first '%s'\n")),
        None,
        Some(String::from("text/*; second '%s'\ntext/plain; third '%s'")),
    ];
    let results = get_entries(&files, "text/plain").unwrap();
    assert_eq!(results.len(), 3);
    assert_eq!(results[0].view, "first '%s'");
    assert_eq!(results[1].view, "second '%s'");
    assert_eq!(results[2].view, "third '%s'");
}

#[test]
fn opened_file_without_match_gives_empty_list() {
    let results = get_entries(&one_file(""), "text/plain").unwrap();
    assert!(results.is_empty());
}

#[test]
fn matching_is_by_component() {
    assert!(mime_types_match("text/plain", "text/plain"));
    assert!(mime_types_match("text/*", "text/plain"));
    assert!(mime_types_match("*/plain", "text/plain"));
    assert!(mime_types_match("*/*", "text/plain"));
    assert!(!mime_types_match("text/plain", "text/html"));
    assert!(!mime_types_match("text/plain", "image/plain"));
    assert!(!mime_types_match("Text/plain", "text/plain"));
    assert!(!mime_types_match("text/pl*", "text/plain"));
}

#[test]
fn pattern_needs_exactly_two_components() {
    assert!(!mime_types_match("text/plain/extra", "text/plain"));
    assert!(!mime_types_match("text/plain/", "text/plain"));
    assert!(!mime_types_match("text", "text/plain"));
    assert!(!mime_types_match("*", "text/plain"));
    assert!(!mime_types_match("", "text/plain"));
    assert!(!mime_types_match("", ""));
}

#[test]
fn at_most_two_components_of_the_subject_are_compared() {
    assert!(mime_types_match("text/plain", "text/plain/more"));
    assert!(mime_types_match("text/plain", "text"));
    assert!(mime_types_match("text/*", "text"));
    assert!(!mime_types_match("text/plain", "image"));
    assert!(mime_types_match("/", ""));
    assert!(mime_types_match("*/", ""));
}

#[test]
fn line_without_command_holds_no_entry() {
    assert!(parse_line("text/plain", "text/plain").is_none());
    assert!(parse_line("", "text/plain").is_none());
    assert!(parse_line("text/html; lynx '%s'", "text/plain").is_none());
}

#[test]
fn line_with_empty_command_holds_an_entry() {
    let entry = parse_line("text/plain;", "text/plain").unwrap();
    assert_eq!(entry.view, "");
    assert_eq!(entry.edit, "");
    assert!(!entry.needsterminal);
    assert!(!entry.copiousoutput);
}

#[test]
fn command_is_trimmed_and_values_are_not() {
    let entry = parse_line(
        "text/plain; \t less '%s' \t;  edit = vi '%s' ; print=lpr '%s';compose= ed ",
        "text/plain",
    )
    .unwrap();
    assert_eq!(entry.view, "less '%s'");
    assert_eq!(entry.edit, " vi '%s' ");
    assert_eq!(entry.print, "lpr '%s'");
    assert_eq!(entry.compose, " ed ");
    assert_eq!(entry.test, "");
}

#[test]
fn value_goes_to_the_end_of_the_field() {
    let entry = parse_line("a/b; c; test=test x=y; edit=", "a/b").unwrap();
    assert_eq!(entry.test, "test x=y");
    assert_eq!(entry.edit, "");
}

#[test]
fn flags_are_bare_words() {
    let entry = parse_line("a/b; c; needsterminal ;copiousoutput", "a/b").unwrap();
    assert!(entry.needsterminal);
    assert!(entry.copiousoutput);

    let entry = parse_line("a/b; c; needsterminal=yes; copiousoutput=", "a/b").unwrap();
    assert!(!entry.needsterminal);
    assert!(!entry.copiousoutput);
}

#[test]
fn unknown_modifiers_are_ignored_and_the_last_value_wins() {
    let entry = parse_line(
        "a/b; c; description=Text; x-token; edit; edit=one; textualnewlines=1; edit=two",
        "a/b",
    )
    .unwrap();
    assert_eq!(entry.view, "c");
    assert_eq!(entry.edit, "two");
    assert_eq!(entry.compose, "");
    assert_eq!(entry.print, "");
    assert_eq!(entry.test, "");
    assert!(!entry.needsterminal);
    assert!(!entry.copiousoutput);
}

#[test]
fn default_entry_is_empty() {
    let entry = MailcapEntry::default();
    assert_eq!(entry.view, "");
    assert_eq!(entry.edit, "");
    assert_eq!(entry.compose, "");
    assert_eq!(entry.print, "");
    assert_eq!(entry.test, "");
    assert!(!entry.needsterminal);
    assert!(!entry.copiousoutput);
}

fn views(entries: &[MailcapEntry]) -> Vec<String> {
    let mut out = Vec::new();
    for entry in entries {
        out.push(format!(
            "{}|{}|{}|{}|{}|{}|{}",
            entry.view,
            entry.edit,
            entry.compose,
            entry.print,
            entry.test,
            entry.needsterminal,
            entry.copiousoutput
        ));
    }
    out
}

#[test]
fn parsing_twice_gives_equal_entries() {
    let first = parse_mailcap(MAILCAP_WILDCARD, "text/plain");
    let second = parse_mailcap(MAILCAP_WILDCARD, "text/plain");
    assert_eq!(first.len(), 3);
    assert_eq!(views(&first), views(&second));
}

#[test]
fn continued_line_reads_as_the_joined_line() {
    let split = parse_mailcap("text/plain; less '%s'; ed\\\nit=vi '%s'\nother/x; y\n", "text/plain");
    let joined = parse_mailcap("text/plain; less '%s'; edit=vi '%s'\nother/x; y\n", "text/plain");
    assert_eq!(split.len(), 1);
    assert_eq!(split[0].edit, "vi '%s'");
    assert_eq!(views(&split), views(&joined));
}

#[test]
fn continuation_may_span_several_lines() {
    let entries = parse_mailcap("a/b; \\\nview \\\n'%s'; \\\nneedsterminal\n", "a/b");
    assert_eq!(entries.len(), 1);
    assert_eq!(entries[0].view, "view '%s'");
    assert!(entries[0].needsterminal);
}

#[test]
fn comment_is_judged_on_the_joined_line() {
    let entries = parse_mailcap("# a comment \\\na/b; hidden\na/b; shown\n", "a/b");
    assert_eq!(entries.len(), 1);
    assert_eq!(entries[0].view, "shown");
}

#[test]
fn unfinished_last_line_is_dropped() {
    let entries = parse_mailcap("a/b; one\na/b; two\\", "a/b");
    assert_eq!(entries.len(), 1);
    assert_eq!(entries[0].view, "one");

    let entries = parse_mailcap("a/b; one\na/b; two\\\n", "a/b");
    assert_eq!(entries.len(), 1);
}

#[test]
fn continuation_does_not_cross_files() {
    let files = vec![
        Some(String::from("a/b; one; edit=\\\n")),
        Some(String::from("x '%s'\na/b; two\n")),
    ];
    let entries = get_entries(&files, "a/b").unwrap();
    assert_eq!(entries.len(), 1);
    assert_eq!(entries[0].view, "two");
}

#[test]
fn carriage_return_before_line_feed_belongs_to_the_line_ending() {
    let entries = parse_mailcap("a/b; one; edit=e1\r\na/b; two; edit=e2\r\n", "a/b");
    assert_eq!(entries.len(), 2);
    assert_eq!(entries[0].edit, "e1");
    assert_eq!(entries[1].edit, "e2");

    let entries = parse_mailcap("a/b; one; edit=e1\r", "a/b");
    assert_eq!(entries[0].edit, "e1\r");
}

#[test]
fn last_line_needs_no_line_feed() {
    let entries = parse_mailcap("a/b; one\na/b; two", "a/b");
    assert_eq!(entries.len(), 2);
    assert_eq!(entries[1].view, "two");
}

#[test]
fn characters_outside_ascii_are_kept() {
    let entry = parse_line("text/plain; \u{a0}zeige \u{2003}'%s'\u{2003}; edit=\u{e9}diteur", "text/plain")
        .unwrap();
    assert_eq!(entry.view, "zeige \u{2003}'%s'");
    assert_eq!(entry.edit, "\u{e9}diteur");
}

#[test]
fn escaped_backslash_at_the_end_does_not_continue() {
    let entries = parse_mailcap("a/b; one; edit=e\\\\\na/b; two\n", "a/b");
    assert_eq!(entries.len(), 2);
    assert_eq!(entries[0].edit, "e\\\\");
    assert_eq!(entries[1].view, "two");

    let entries = parse_mailcap("a/b; one; edit=e\\\\\\\n+f\na/b; two\n", "a/b");
    assert_eq!(entries.len(), 2);
    assert_eq!(entries[0].edit, "e\\\\+f");
    assert_eq!(entries[1].view, "two");
}

#[test]
fn backslashes_are_counted_across_joined_lines() {
    let entries = parse_mailcap("a/b; one; edit=e\\\\\\\n\\\nx\n", "a/b");
    assert_eq!(entries.len(), 1);
    assert_eq!(entries[0].edit, "e\\\\x");
}
