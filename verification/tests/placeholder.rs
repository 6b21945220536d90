use run_mailcap::config::Config;
use run_mailcap::placeholder::command_replace_placeholder;
use run_mailcap::placeholder::push_escaped;
use run_mailcap::placeholder::replace_step;
use run_mailcap::placeholder::substitute;
use run_mailcap::placeholder::ReplaceState;

fn replaced(template: &str, filename: &str, mimetype: &str) -> String {
    let config = Config {
        filename: String::from(filename),
        mimetype: String::from(mimetype),
        ..Default::default()
    };
    command_replace_placeholder(template, &config)
}

fn chars(text: &str) -> Vec<char> {
    text.chars().collect()
}

fn step(state: ReplaceState, quoted: bool, c: char) -> (ReplaceState, bool, String) {
    let mut out = Vec::new();
    let next = replace_step(state, quoted, c, &chars("f'g"), &chars("a/b"), &mut out);
    (next.0, next.1, out.into_iter().collect())
}

#[test]
fn file_name_inside_single_quotes() {
    assert_eq!(replaced("cat '%s'", "fo'o.txt", ""), "cat 'fo'\\''o.txt'");
}

#[test]
fn file_name_outside_quotes() {
    assert_eq!(replaced("cat %s", "fo'o.txt", ""), "cat fo\\'o.txt");
}

#[test]
fn escaped_backslash_and_doubled_percent() {
    assert_eq!(replaced("cat '\\\\%s' %%s", "test.txt", ""), "cat '\\%s' %test.txt");
}

#[test]
fn mime_type_is_copied_as_it_is() {
    assert_eq!(replaced("echo %t %s", "test.txt", "application/pdf"), "echo application/pdf test.txt");
    assert_eq!(replaced("'%t'", "f", "a'b"), "'a'b'");
}

#[test]
fn template_without_placeholder_is_copied() {
    assert_eq!(replaced("", "f", "t"), "");
    assert_eq!(replaced("ls -l /tmp", "f", "t"), "ls -l /tmp");
}

#[test]
fn quoting_follows_the_quotes_of_the_template() {
    assert_eq!(replaced("a '%s' %s '%s'", "x'y", ""), "a 'x'\\''y' x\\'y 'x'\\''y'");
}

#[test]
fn unknown_placeholder_is_kept() {
    assert_eq!(replaced("a %x b", "f", "t"), "a %x b");
    assert_eq!(replaced("a %{charset} b", "f", "t"), "a %{charset} b");
}

#[test]
fn quote_after_percent_does_not_toggle() {
    assert_eq!(replaced("%'%s", "a'b", ""), "%'a\\'b");
}

#[test]
fn runs_of_percent_signs() {
    assert_eq!(replaced("%%", "f", "t"), "%");
    assert_eq!(replaced("%%%", "f", "t"), "%%");
    assert_eq!(replaced("%%%%s", "f", "t"), "%%%f");
    assert_eq!(replaced("%%t", "f", "t"), "%t");
}

#[test]
fn backslash_escapes() {
    assert_eq!(replaced("\\%s", "f", "t"), "%s");
    assert_eq!(replaced("\\n", "f", "t"), "\\n");
    assert_eq!(replaced("\\\\", "f", "t"), "\\");
    assert_eq!(replaced("\\\\\\", "f", "t"), "\\\\");
    assert_eq!(replaced("\\\\n", "f", "t"), "\\\\n");
    assert_eq!(replaced("\\'%s", "a'b", ""), "\\'a\\'b");
}

#[test]
fn pending_marker_at_the_end_is_dropped() {
    assert_eq!(replaced("100%", "f", "t"), "100");
    assert_eq!(replaced("dir\\", "f", "t"), "dir");
}

#[test]
fn other_settings_do_not_matter() {
    let one = Config {
        filename: String::from("a'b"),
        mimetype: String::from("text/plain"),
        ..Default::default()
    };
    let other = Config {
        filename: String::from("a'b"),
        mimetype: String::from("text/plain"),
        pager: String::from("more"),
        xtermcmd: String::from("urxvt"),
        nopager: true,
        running_in_x: true,
        ..Default::default()
    };
    let template = "see '%s' %s %t";
    assert_eq!(
        command_replace_placeholder(template, &one),
        command_replace_placeholder(template, &other)
    );
    assert_eq!(command_replace_placeholder(template, &one), "see 'a'\\''b' a\\'b text/plain");
}

#[test]
fn steps_from_plain_state() {
    assert_eq!(step(ReplaceState::Plain, false, '%'), (ReplaceState::AfterPercent, false, String::new()));
    assert_eq!(step(ReplaceState::Plain, true, '\\'), (ReplaceState::AfterBackslash, true, String::new()));
    assert_eq!(step(ReplaceState::Plain, false, '\''), (ReplaceState::Plain, true, String::from("'")));
    assert_eq!(step(ReplaceState::Plain, true, '\''), (ReplaceState::Plain, false, String::from("'")));
    assert_eq!(step(ReplaceState::Plain, true, 's'), (ReplaceState::Plain, true, String::from("s")));
}

#[test]
fn steps_after_percent() {
    assert_eq!(step(ReplaceState::AfterPercent, false, 's'), (ReplaceState::Plain, false, String::from("f\\'g")));
    assert_eq!(step(ReplaceState::AfterPercent, true, 's'), (ReplaceState::Plain, true, String::from("f'\\''g")));
    assert_eq!(step(ReplaceState::AfterPercent, true, 't'), (ReplaceState::Plain, true, String::from("a/b")));
    assert_eq!(step(ReplaceState::AfterPercent, false, '%'), (ReplaceState::AfterPercent, false, String::from("%")));
    assert_eq!(step(ReplaceState::AfterPercent, false, 'x'), (ReplaceState::Plain, false, String::from("%x")));
    assert_eq!(step(ReplaceState::AfterPercent, false, '\''), (ReplaceState::Plain, false, String::from("%'")));
    assert_eq!(step(ReplaceState::AfterPercent, false, '\\'), (ReplaceState::Plain, false, String::from("%\\")));
}

#[test]
fn steps_after_backslash() {
    assert_eq!(step(ReplaceState::AfterBackslash, false, '%'), (ReplaceState::Plain, false, String::from("%")));
    assert_eq!(step(ReplaceState::AfterBackslash, false, '\\'), (ReplaceState::AfterBackslash, false, String::from("\\")));
    assert_eq!(step(ReplaceState::AfterBackslash, true, 'n'), (ReplaceState::Plain, true, String::from("\\n")));
    assert_eq!(step(ReplaceState::AfterBackslash, true, '\''), (ReplaceState::Plain, true, String::from("\\'")));
}

#[test]
fn step_appends_to_what_is_there() {
    let mut out = chars("abc");
    let next = replace_step(ReplaceState::AfterPercent, false, 't', &chars("f"), &chars("x/y"), &mut out);
    assert_eq!(next, (ReplaceState::Plain, false));
    assert_eq!(out, chars("abcx/y"));
}

#[test]
fn escaping_a_name() {
    let mut out = chars(">");
    push_escaped(&mut out, &chars("it's 'so'"), true);
    assert_eq!(out, chars(">it'\\''s '\\''so'\\''"));

    let mut out = Vec::new();
    push_escaped(&mut out, &chars("it's 'so'"), false);
    assert_eq!(out, chars("it\\'s \\'so\\'"));

    let mut out = Vec::new();
    push_escaped(&mut out, &chars(""), false);
    assert!(out.is_empty());
}

#[test]
fn substitution_on_characters() {
    assert_eq!(substitute(&chars("'%s' %t"), &chars("\u{fc}'x"), &chars("a/b")), chars("'\u{fc}'\\''x' a/b"));
}

/// Reads `text` as a shell reads one word made of single-quoted parts,
/// backslash escapes and plain characters.
fn shell_word(text: &str) -> Option<String> {
    let mut word = String::new();
    let mut quoted = false;
    let mut chars = text.chars();
    while let Some(c) = chars.next() {
        if quoted {
            if c == '\'' {
                quoted = false;
            } else {
                word.push(c);
            }
        } else if c == '\'' {
            quoted = true;
        } else if c == '\\' {
            word.push(chars.next()?);
        } else if " \t\n|&;<>()$`\"*?[#~=%".contains(c) {
            return None;
        } else {
            word.push(c);
        }
    }
    if quoted {
        None
    } else {
        Some(word)
    }
}

#[test]
fn quoted_name_reads_back_as_one_argument() {
    for name in ["fo'o.txt", "'", "''", "a b", "$(reboot); 'x' \\ `y` \"z\"", "", "\u{e9}'\n"] {
        let command = replaced("'%s'", name, "");
        assert_eq!(shell_word(&command).as_deref(), Some(name), "for {:?}", command);
    }
}

#[test]
fn bare_name_reads_back_as_one_argument() {
    for name in ["fo'o.txt", "'", "''", "it's-a_file.tar.gz", "'a'b'"] {
        let command = replaced("%s", name, "");
        assert_eq!(shell_word(&command).as_deref(), Some(name), "for {:?}", command);
    }
}

#[test]
fn bare_name_with_a_blank_is_not_one_argument() {
    assert_eq!(replaced("%s", "a b'c", ""), "a b\\'c");
    assert_eq!(shell_word("a b\\'c"), None);
}
