//! Placeholder substitution: a command template becomes a shell command line.
//!
//! The template is read one character at a time by a machine of three states
//! that also remembers whether it stands inside single quotes, so that a file
//! name put in place of `%s` can be escaped for the quoting around it.

use vstd::prelude::*;
use crate::config::Config;
use crate::text::chars_of;
use crate::text::string_of;

verus! {

/// Where the reader stands in the template.
#[derive(Debug, Clone, Copy, PartialEq, Eq, Structural)]
pub enum ReplaceState {
    /// Nothing is pending.
    Plain,
    /// A `%` was read and waits for the character that follows it.
    AfterPercent,
    /// A `\` was read and waits for the character that follows it.
    AfterBackslash,
}

/// One character of a file name as it is written into a command: a single
/// quote is escaped for the quoting around it, any other character is kept.
pub open spec fn escaped_char(c: char, quoted: bool) -> Seq<char> {
    if c != '\'' {
        seq![c]
    } else if quoted {
        seq!['\'', '\\', '\'', '\'']
    } else {
        seq!['\\', '\'']
    }
}

/// A file name as it is written into a command, inside single quotes
/// (`quoted`) or outside them.
pub open spec fn escaped(name: Seq<char>, quoted: bool) -> Seq<char>
    decreases name.len(),
{
    if name.len() == 0 {
        Seq::empty()
    } else {
        escaped_char(name[0], quoted) + escaped(name.drop_first(), quoted)
    }
}

/// The state after reading `c` in `state`.
pub open spec fn next_state(state: ReplaceState, c: char) -> ReplaceState {
    match state {
        ReplaceState::Plain => if c == '%' {
            ReplaceState::AfterPercent
        } else if c == '\\' {
            ReplaceState::AfterBackslash
        } else {
            ReplaceState::Plain
        },
        ReplaceState::AfterPercent => if c == '%' {
            ReplaceState::AfterPercent
        } else {
            ReplaceState::Plain
        },
        ReplaceState::AfterBackslash => if c == '\\' {
            ReplaceState::AfterBackslash
        } else {
            ReplaceState::Plain
        },
    }
}

/// Whether the reader stands inside single quotes after reading `c`: only a
/// quote read with nothing pending opens or closes them.
pub open spec fn next_quoted(state: ReplaceState, quoted: bool, c: char) -> bool {
    if state == ReplaceState::Plain && c == '\'' {
        !quoted
    } else {
        quoted
    }
}

/// What reading `c` in `state` writes to the command.
pub open spec fn emitted(
    state: ReplaceState,
    quoted: bool,
    c: char,
    filename: Seq<char>,
    mimetype: Seq<char>,
) -> Seq<char> {
    match state {
        ReplaceState::Plain => if c == '%' || c == '\\' {
            Seq::empty()
        } else {
            seq![c]
        },
        ReplaceState::AfterPercent => if c == 's' {
            escaped(filename, quoted)
        } else if c == 't' {
            mimetype
        } else if c == '%' {
            seq!['%']
        } else {
            seq!['%', c]
        },
        ReplaceState::AfterBackslash => if c == '%' {
            seq!['%']
        } else if c == '\\' {
            seq!['\\']
        } else {
            seq!['\\', c]
        },
    }
}

/// What the reader writes for `template` when it starts in `state`.
pub open spec fn substituted_from(
    state: ReplaceState,
    quoted: bool,
    template: Seq<char>,
    filename: Seq<char>,
    mimetype: Seq<char>,
) -> Seq<char>
    decreases template.len(),
{
    if template.len() == 0 {
        Seq::empty()
    } else {
        emitted(state, quoted, template[0], filename, mimetype) + substituted_from(
            next_state(state, template[0]),
            next_quoted(state, quoted, template[0]),
            template.drop_first(),
            filename,
            mimetype,
        )
    }
}

/// The command that `template` stands for: `%s` replaced by the file name,
/// escaped for the quoting around it, `%t` by the MIME type, `%%` and `\%`
/// by a percent sign.
pub open spec fn substituted(template: Seq<char>, filename: Seq<char>, mimetype: Seq<char>) -> Seq<
    char,
> {
    substituted_from(ReplaceState::Plain, false, template, filename, mimetype)
}

/// Appends `filename` to `out`, each single quote escaped for the quoting
/// around it.
pub fn push_escaped(out: &mut Vec<char>, filename: &[char], quoted: bool)
    ensures
        final(out)@ == old(out)@ + escaped(filename@, quoted),
{
    let mut i: usize = 0;
    proof {
        assert(filename@.subrange(0, filename.len() as int) == filename@);
    }
    while i < filename.len()
        invariant
            i <= filename.len(),
            out@ + escaped(filename@.subrange(i as int, filename.len() as int), quoted) == old(
                out,
            )@ + escaped(filename@, quoted),
        decreases filename.len() - i,
    {
        let ghost rest = filename@.subrange(i as int, filename.len() as int);
        let c = filename[i];
        if c == '\'' {
            if quoted {
                out.push('\'');
                out.push('\\');
                out.push('\'');
                out.push('\'');
            } else {
                out.push('\\');
                out.push('\'');
            }
        } else {
            out.push(c);
        }
        proof {
            assert(rest.drop_first() == filename@.subrange(i + 1, filename.len() as int));
        }
        i += 1;
    }
}

/// Reads one character of the template: writes to `out` what it stands for
/// and returns the next state with the next quoting flag.
pub fn replace_step(
    state: ReplaceState,
    quoted: bool,
    c: char,
    filename: &[char],
    mimetype: &[char],
    out: &mut Vec<char>,
) -> (next: (ReplaceState, bool))
    ensures
        next.0 == next_state(state, c),
        next.1 == next_quoted(state, quoted, c),
        final(out)@ == old(out)@ + emitted(state, quoted, c, filename@, mimetype@),
{
    match state {
        ReplaceState::Plain => {
            if c == '%' {
                (ReplaceState::AfterPercent, quoted)
            } else if c == '\\' {
                (ReplaceState::AfterBackslash, quoted)
            } else if c == '\'' {
                out.push(c);
                (ReplaceState::Plain, !quoted)
            } else {
                out.push(c);
                (ReplaceState::Plain, quoted)
            }
        },
        ReplaceState::AfterPercent => {
            if c == 's' {
                push_escaped(out, filename, quoted);
                (ReplaceState::Plain, quoted)
            } else if c == 't' {
                out.extend_from_slice(mimetype);
                (ReplaceState::Plain, quoted)
            } else if c == '%' {
                out.push('%');
                (ReplaceState::AfterPercent, quoted)
            } else {
                out.push('%');
                out.push(c);
                (ReplaceState::Plain, quoted)
            }
        },
        ReplaceState::AfterBackslash => {
            if c == '%' {
                out.push('%');
                (ReplaceState::Plain, quoted)
            } else if c == '\\' {
                out.push('\\');
                (ReplaceState::AfterBackslash, quoted)
            } else {
                out.push('\\');
                out.push(c);
                (ReplaceState::Plain, quoted)
            }
        },
    }
}

/// The characters of the command that `template` stands for.
pub fn substitute(template: &[char], filename: &[char], mimetype: &[char]) -> (out: Vec<char>)
    ensures
        out@ == substituted(template@, filename@, mimetype@),
{
    let mut out: Vec<char> = Vec::new();
    let mut state = ReplaceState::Plain;
    let mut quoted = false;
    let mut i: usize = 0;
    proof {
        assert(template@.subrange(0, template.len() as int) == template@);
    }
    while i < template.len()
        invariant
            i <= template.len(),
            out@ + substituted_from(
                state,
                quoted,
                template@.subrange(i as int, template.len() as int),
                filename@,
                mimetype@,
            ) == substituted(template@, filename@, mimetype@),
        decreases template.len() - i,
    {
        let ghost rest = template@.subrange(i as int, template.len() as int);
        let next = replace_step(state, quoted, template[i], filename, mimetype, &mut out);
        proof {
            assert(rest.drop_first() == template@.subrange(i + 1, template.len() as int));
        }
        state = next.0;
        quoted = next.1;
        i += 1;
    }
    out
}

/// The command that the template `string` stands for, with the file name and
/// the MIME type of `config` in the place of `%s` and `%t`. Every template
/// has a command: what is no placeholder is copied.
pub fn command_replace_placeholder(string: &str, config: &Config) -> (command: String)
    ensures
        command@ == substituted(string@, config.filename@, config.mimetype@),
{
    let template = chars_of(string);
    let filename = chars_of(config.filename.as_str());
    let mimetype = chars_of(config.mimetype.as_str());
    let out = substitute(template.as_slice(), filename.as_slice(), mimetype.as_slice());
    string_of(out.as_slice())
}

/// The command depends on the template, the file name and the MIME type
/// alone: two contexts that agree on the file name and the MIME type give
/// the same command for a template, whatever else they hold.
pub proof fn lemma_substitution_reads_name_and_type_only(
    template: Seq<char>,
    one: Config,
    other: Config,
    first: String,
    second: String,
)
    requires
        one.filename@ == other.filename@,
        one.mimetype@ == other.mimetype@,
        first@ == substituted(template, one.filename@, one.mimetype@),
        second@ == substituted(template, other.filename@, other.mimetype@),
    ensures
        first@ == second@,
{
}

} // verus!
