//! The choice of the command: the first entry that offers the wanted action
//! and whose test passes decides, and nothing after it is looked at.
//!
//! Running a test is not the resolver's business. It works in steps: each
//! step either ends with the answer or names the test that has to be run
//! next, and the caller comes back with what the test said.

use vstd::prelude::*;
use crate::config::Action;
use crate::config::Config;
use crate::config::ConfigView;
use crate::mailcap::MailcapEntry;
use crate::mailcap::MailcapEntryView;
use crate::mailcap::entry_views;
use crate::placeholder::substitute;
use crate::placeholder::substituted;
use crate::text::chars_of;
use crate::text::string_of;

verus! {

/// What the caller knows when it asks for the next step.
#[derive(Debug, Clone, Copy, PartialEq, Eq, Structural)]
pub enum Progress {
    /// Nothing has been looked at yet.
    Start,
    /// The test of the entry at index `entry` was run and passed or failed.
    Tested { entry: usize, passed: bool },
}

/// What the resolver says after a step.
#[derive(Debug)]
pub enum Step {
    /// The answer: the command to run, or none.
    Finished(Option<String>),
    /// The test of the entry at index `entry` has to be run: `command` is
    /// handed to the shell, and the test passes if the shell reports success.
    RunTest { entry: usize, command: String },
}

/// The mathematical value of a `Step`.
pub ghost enum StepView {
    Finished(Option<Seq<char>>),
    RunTest { entry: int, command: Seq<char> },
}

impl View for Step {
    type V = StepView;

    open spec fn view(&self) -> StepView {
        match self {
            Step::Finished(Some(command)) => StepView::Finished(Some(command@)),
            Step::Finished(None) => StepView::Finished(None),
            Step::RunTest { entry, command } => StepView::RunTest {
                entry: *entry as int,
                command: command@,
            },
        }
    }
}

/// The template that an entry offers for an action. `Cat` reads the `view`
/// template.
pub open spec fn selected_template(action: Action, entry: MailcapEntryView) -> Seq<char> {
    match action {
        Action::View => entry.view,
        Action::Cat => entry.view,
        Action::Edit => entry.edit,
        Action::Compose => entry.compose,
        Action::Print => entry.print,
    }
}

/// Whether an entry offers the wanted action: its template for it is not
/// empty, and for `Cat` the entry is marked `copiousoutput` as well.
pub open spec fn is_candidate(config: ConfigView, entry: MailcapEntryView) -> bool {
    selected_template(config.action, entry).len() > 0 && (config.action == Action::Cat
        ==> entry.copiousoutput)
}

/// What is handed to the shell to run the test of an entry: the test with
/// its placeholders replaced, its output thrown away.
pub open spec fn test_command(config: ConfigView, entry: MailcapEntryView) -> Seq<char> {
    substituted(entry.test, config.filename, config.mimetype) + " 2>&1 > /dev/null"@
}

/// The command of an entry for the wanted action, its placeholders replaced,
/// piped into the pager where the entry is marked `copiousoutput`, the
/// action is `View` and the pager is not switched off.
pub open spec fn paged_command(config: ConfigView, entry: MailcapEntryView) -> Seq<char> {
    let command = substituted(
        selected_template(config.action, entry),
        config.filename,
        config.mimetype,
    );
    if entry.copiousoutput && !config.nopager && config.action == Action::View {
        command + seq!['|'] + config.pager
    } else {
        command
    }
}

/// The command line that runs `command` in a new terminal window opened by
/// `launcher`, with the command as the window's title.
pub open spec fn in_terminal(launcher: Seq<char>, command: Seq<char>) -> Seq<char> {
    launcher + " -T \""@ + command + "\" -e sh -c \""@ + command + "\""@
}

/// The answer that an entry gives once it is chosen. An entry marked
/// `needsterminal`, for an action other than `Print`, gives its command as it
/// is on a terminal, wrapped into a terminal window under X, and no command
/// at all otherwise. Any other entry gives its command as it is.
pub open spec fn final_command(config: ConfigView, isatty: bool, entry: MailcapEntryView) -> Option<
    Seq<char>,
> {
    let command = paged_command(config, entry);
    if entry.needsterminal && config.action != Action::Print {
        if isatty {
            Some(command)
        } else if config.running_in_x {
            Some(in_terminal(config.xtermcmd, command))
        } else {
            None
        }
    } else {
        Some(command)
    }
}

/// The command for a file: the answer of the first entry that offers the
/// wanted action and whose test, if it has one, passes. `passes` says of
/// each test command whether it would pass.
pub open spec fn resolved(
    config: ConfigView,
    isatty: bool,
    entries: Seq<MailcapEntryView>,
    passes: spec_fn(Seq<char>) -> bool,
) -> Option<Seq<char>>
    decreases entries.len(),
{
    if entries.len() == 0 {
        None
    } else if is_candidate(config, entries[0]) && (entries[0].test.len() == 0 || passes(
        test_command(config, entries[0]),
    )) {
        final_command(config, isatty, entries[0])
    } else {
        resolved(config, isatty, entries.drop_first(), passes)
    }
}

/// Index of the first entry at or after `from` that offers the wanted
/// action, or `entries.len()` where there is none.
pub open spec fn next_candidate(config: ConfigView, entries: Seq<MailcapEntryView>, from: int) -> int
    decreases entries.len() - from,
{
    if from < 0 || from >= entries.len() {
        entries.len() as int
    } else if is_candidate(config, entries[from]) {
        from
    } else {
        next_candidate(config, entries, from + 1)
    }
}

/// The step that looking at the entries from index `from` on leads to: the
/// first entry that offers the wanted action gives its answer if it has no
/// test, and asks for its test otherwise; without such an entry the answer
/// is no command.
pub open spec fn scan_step(
    config: ConfigView,
    isatty: bool,
    entries: Seq<MailcapEntryView>,
    from: int,
) -> StepView {
    let i = next_candidate(config, entries, from);
    if i < 0 || i >= entries.len() {
        StepView::Finished(None)
    } else if entries[i].test.len() == 0 {
        StepView::Finished(final_command(config, isatty, entries[i]))
    } else {
        StepView::RunTest { entry: i, command: test_command(config, entries[i]) }
    }
}

/// The step that follows `progress`: at the start the entries are looked at
/// from the first; after a test that passed, the tested entry gives its
/// answer; after one that failed, the entries after it are looked at.
pub open spec fn next_step(
    config: ConfigView,
    isatty: bool,
    entries: Seq<MailcapEntryView>,
    progress: Progress,
) -> StepView {
    match progress {
        Progress::Start => scan_step(config, isatty, entries, 0),
        Progress::Tested { entry, passed } => if !passed {
            scan_step(config, isatty, entries, entry + 1)
        } else if entry < entries.len() {
            StepView::Finished(final_command(config, isatty, entries[entry as int]))
        } else {
            StepView::Finished(None)
        },
    }
}

fn push_text(out: &mut Vec<char>, text: &str)
    ensures
        final(out)@ == old(out)@ + text@,
{
    let chars = chars_of(text);
    out.extend_from_slice(chars.as_slice());
}

fn choose_template<'a>(action: Action, entry: &'a MailcapEntry) -> (template: &'a String)
    ensures
        template@ == selected_template(action, entry@),
{
    match action {
        Action::View => &entry.view,
        Action::Cat => &entry.view,
        Action::Edit => &entry.edit,
        Action::Compose => &entry.compose,
        Action::Print => &entry.print,
    }
}

fn offers(config: &Config, entry: &MailcapEntry) -> (candidate: bool)
    ensures
        candidate == is_candidate(config@, entry@),
{
    let template = choose_template(config.action, entry);
    if template.as_str().is_empty() {
        false
    } else {
        match config.action {
            Action::Cat => entry.copiousoutput,
            _ => true,
        }
    }
}

/// What is handed to the shell to run the test of `entry`.
pub fn build_test_command(config: &Config, entry: &MailcapEntry) -> (command: String)
    ensures
        command@ == test_command(config@, entry@),
{
    let template = chars_of(entry.test.as_str());
    let filename = chars_of(config.filename.as_str());
    let mimetype = chars_of(config.mimetype.as_str());
    let mut out = substitute(template.as_slice(), filename.as_slice(), mimetype.as_slice());
    push_text(&mut out, " 2>&1 > /dev/null");
    string_of(out.as_slice())
}

/// The answer that `entry` gives once it is chosen.
pub fn finish_entry(config: &Config, isatty: bool, entry: &MailcapEntry) -> (answer: Option<String>)
    ensures
        match answer {
            Some(command) => final_command(config@, isatty, entry@) == Some(command@),
            None => final_command(config@, isatty, entry@) is None,
        },
{
    let template = chars_of(choose_template(config.action, entry).as_str());
    let filename = chars_of(config.filename.as_str());
    let mimetype = chars_of(config.mimetype.as_str());
    let mut command = substitute(template.as_slice(), filename.as_slice(), mimetype.as_slice());
    let viewing = match config.action {
        Action::View => true,
        _ => false,
    };
    if entry.copiousoutput && !config.nopager && viewing {
        command.push('|');
        push_text(&mut command, config.pager.as_str());
    }
    let printing = match config.action {
        Action::Print => true,
        _ => false,
    };
    if entry.needsterminal && !printing {
        if isatty {
            Some(string_of(command.as_slice()))
        } else if config.running_in_x {
            let mut wrapped = chars_of(config.xtermcmd.as_str());
            push_text(&mut wrapped, " -T \"");
            wrapped.extend_from_slice(command.as_slice());
            push_text(&mut wrapped, "\" -e sh -c \"");
            wrapped.extend_from_slice(command.as_slice());
            push_text(&mut wrapped, "\"");
            Some(string_of(wrapped.as_slice()))
        } else {
            None
        }
    } else {
        Some(string_of(command.as_slice()))
    }
}

fn scan_entries(config: &Config, isatty: bool, entries: &[MailcapEntry], from: usize) -> (step:
    Step)
    ensures
        step@ == scan_step(config@, isatty, entry_views(entries@), from as int),
{
    let ghost views = entry_views(entries@);
    let mut i: usize = from;
    while i < entries.len() && !offers(config, &entries[i])
        invariant
            from <= i,
            views == entry_views(entries@),
            next_candidate(config@, views, i as int) == next_candidate(config@, views, from as int),
        decreases entries.len() - i,
    {
        i += 1;
    }
    if i >= entries.len() {
        return Step::Finished(None);
    }
    let entry = &entries[i];
    if entry.test.as_str().is_empty() {
        Step::Finished(finish_entry(config, isatty, entry))
    } else {
        Step::RunTest { entry: i, command: build_test_command(config, entry) }
    }
}

/// One step towards the command for the file of `config`: the answer, or the
/// test that has to be run before the resolver can go on. The caller starts
/// with `Progress::Start`; when it is asked to run a test, it runs it and
/// calls again with `Progress::Tested`, until the step is `Finished`.
pub fn get_final_command(
    config: &Config,
    isatty: bool,
    mailcap_entries: &[MailcapEntry],
    progress: Progress,
) -> (step: Step)
    ensures
        step@ == next_step(config@, isatty, entry_views(mailcap_entries@), progress),
{
    match progress {
        Progress::Start => scan_entries(config, isatty, mailcap_entries, 0),
        Progress::Tested { entry, passed } => {
            if !passed {
                if entry < mailcap_entries.len() {
                    scan_entries(config, isatty, mailcap_entries, entry + 1)
                } else {
                    Step::Finished(None)
                }
            } else if entry < mailcap_entries.len() {
                Step::Finished(finish_entry(config, isatty, &mailcap_entries[entry]))
            } else {
                Step::Finished(None)
            }
        },
    }
}

/// The command for a file when only the entries from index `from` on are
/// looked at.
pub open spec fn resolved_from(
    config: ConfigView,
    isatty: bool,
    entries: Seq<MailcapEntryView>,
    from: int,
    passes: spec_fn(Seq<char>) -> bool,
) -> Option<Seq<char>> {
    if 0 <= from <= entries.len() {
        resolved(config, isatty, entries.subrange(from, entries.len() as int), passes)
    } else {
        None
    }
}

/// The command that is owed once `progress` is reached, where every test
/// still to be run says what `passes` says of it.
pub open spec fn answer_after(
    config: ConfigView,
    isatty: bool,
    entries: Seq<MailcapEntryView>,
    progress: Progress,
    passes: spec_fn(Seq<char>) -> bool,
) -> Option<Seq<char>> {
    match progress {
        Progress::Start => resolved(config, isatty, entries, passes),
        Progress::Tested { entry, passed } => if !passed {
            resolved_from(config, isatty, entries, entry + 1, passes)
        } else if entry < entries.len() {
            final_command(config, isatty, entries[entry as int])
        } else {
            None
        },
    }
}

/// Looking at the entries from `from` on leads to the command for those
/// entries: a finished step holds it, and a step that asks for a test names
/// a test on whose outcome it depends as the rule for one entry says.
pub proof fn lemma_scan_resolves(
    config: ConfigView,
    isatty: bool,
    entries: Seq<MailcapEntryView>,
    from: int,
    passes: spec_fn(Seq<char>) -> bool,
)
    requires
        0 <= from <= entries.len(),
    ensures
        match scan_step(config, isatty, entries, from) {
            StepView::Finished(answer) => resolved_from(config, isatty, entries, from, passes)
                == answer,
            StepView::RunTest { entry, command } => {
                &&& from <= entry < entries.len()
                &&& command == test_command(config, entries[entry])
                &&& resolved_from(config, isatty, entries, from, passes) == if passes(command) {
                    final_command(config, isatty, entries[entry])
                } else {
                    resolved_from(config, isatty, entries, entry + 1, passes)
                }
            },
        },
    decreases entries.len() - from,
{
    let rest = entries.subrange(from, entries.len() as int);
    if from < entries.len() {
        assert(rest.drop_first() == entries.subrange(from + 1, entries.len() as int));
        if !is_candidate(config, entries[from]) {
            lemma_scan_resolves(config, isatty, entries, from + 1, passes);
        }
    }
}

/// The steps lead to the command for the file. Along them the command that
/// is owed never changes: a step that asks for a test owes the same command
/// before the test and after it, and a finished step holds the command that
/// was owed. At the start the command owed is that of the first entry that
/// offers the wanted action and whose test passes.
pub proof fn lemma_step_keeps_answer(
    config: ConfigView,
    isatty: bool,
    entries: Seq<MailcapEntryView>,
    progress: Progress,
    passes: spec_fn(Seq<char>) -> bool,
)
    requires
        entries.len() <= usize::MAX,
    ensures
        match next_step(config, isatty, entries, progress) {
            StepView::Finished(answer) => answer_after(config, isatty, entries, progress, passes)
                == answer,
            StepView::RunTest { entry, command } => {
                &&& 0 <= entry < entries.len()
                &&& answer_after(config, isatty, entries, progress, passes) == answer_after(
                    config,
                    isatty,
                    entries,
                    Progress::Tested { entry: entry as usize, passed: passes(command) },
                    passes,
                )
            },
        },
{
    match progress {
        Progress::Start => {
            assert(entries.subrange(0, entries.len() as int) == entries);
            lemma_scan_resolves(config, isatty, entries, 0, passes);
        },
        Progress::Tested { entry, passed } => {
            if !passed && entry < entries.len() {
                lemma_scan_resolves(config, isatty, entries, entry + 1, passes);
            }
        },
    }
}

} // verus!
