//! Why the escaping of file names is safe: a model of how a POSIX shell reads
//! one word, and the proof that an escaped file name is read back as itself.

use vstd::prelude::*;
use crate::placeholder::ReplaceState;
use crate::placeholder::escaped;
use crate::placeholder::escaped_char;
use crate::placeholder::substituted;
use crate::placeholder::substituted_from;

verus! {

/// The characters that POSIX asks to be quoted where they are to stand for
/// themselves: the operators, the quoting characters, blanks, and those that
/// start an expansion or a pattern.
pub open spec fn needs_quoting(c: char) -> bool {
    ||| c == '|' || c == '&' || c == ';' || c == '<' || c == '>' || c == '(' || c == ')'
    ||| c == '$' || c == '`' || c == '\\' || c == '"' || c == '\''
    ||| c == ' ' || c == '\t' || c == '\n'
    ||| c == '*' || c == '?' || c == '[' || c == '#' || c == '~' || c == '=' || c == '%'
}

/// `word` with `c` put in front, where there is a word.
pub open spec fn with_first(c: char, word: Option<Seq<char>>) -> Option<Seq<char>> {
    match word {
        Some(w) => Some(seq![c] + w),
        None => None,
    }
}

/// `word` with `prefix` put in front, where there is a word.
pub open spec fn with_prefix(prefix: Seq<char>, word: Option<Seq<char>>) -> Option<Seq<char>> {
    match word {
        Some(w) => Some(prefix + w),
        None => None,
    }
}

/// The text that a shell reads from `s` as the rest of one word, starting
/// inside single quotes (`quoted`) or outside them. Inside quotes every
/// character but the closing quote stands for itself; outside them a
/// backslash makes the next character stand for itself, and a character that
/// needs no quoting stands for itself. `None` where `s` is not of this form:
/// the shell would split or expand it, or it ends inside quotes or after a
/// backslash.
pub open spec fn shell_word_from(quoted: bool, s: Seq<char>) -> Option<Seq<char>>
    decreases s.len(),
{
    if s.len() == 0 {
        if quoted {
            None
        } else {
            Some(Seq::empty())
        }
    } else if quoted {
        if s[0] == '\'' {
            shell_word_from(false, s.drop_first())
        } else {
            with_first(s[0], shell_word_from(true, s.drop_first()))
        }
    } else if s[0] == '\'' {
        shell_word_from(true, s.drop_first())
    } else if s[0] == '\\' {
        if s.len() >= 2 && s[1] != '\n' {
            with_first(s[1], shell_word_from(false, s.subrange(2, s.len() as int)))
        } else {
            None
        }
    } else if needs_quoting(s[0]) {
        None
    } else {
        with_first(s[0], shell_word_from(false, s.drop_first()))
    }
}

/// The single argument that a shell reads from `s`, where `s` is one word of
/// the form that `shell_word_from` reads. The empty text is no argument.
pub open spec fn shell_argument(s: Seq<char>) -> Option<Seq<char>> {
    if s.len() == 0 {
        None
    } else {
        shell_word_from(false, s)
    }
}

/// Whether an escaped `name` can stand outside quotes: each character is a
/// single quote, which is escaped, or needs no quoting.
pub open spec fn safe_unquoted(name: Seq<char>) -> bool {
    forall|i: int| 0 <= i < name.len() ==> name[i] == '\'' || !needs_quoting(#[trigger] name[i])
}

/// Reading an escaped name gives the name back, followed by what the shell
/// reads from the text after it: inside quotes for every name, outside them
/// for a name whose other characters need no quoting.
pub proof fn lemma_escaped_reads_back(name: Seq<char>, quoted: bool, rest: Seq<char>)
    requires
        !quoted ==> safe_unquoted(name),
    ensures
        shell_word_from(quoted, escaped(name, quoted) + rest) == with_prefix(
            name,
            shell_word_from(quoted, rest),
        ),
    decreases name.len(),
{
    let after = shell_word_from(quoted, rest);
    if name.len() == 0 {
        assert(escaped(name, quoted) + rest == rest);
        if after is Some {
            assert(name + after->0 == after->0);
        }
    } else {
        let c = name[0];
        let tail = name.drop_first();
        let inner = escaped(tail, quoted) + rest;
        let text = escaped(name, quoted) + rest;
        assert(!quoted ==> safe_unquoted(tail)) by {
            if !quoted {
                assert forall|i: int| 0 <= i < tail.len() implies tail[i] == '\''
                    || !needs_quoting(#[trigger] tail[i]) by {
                    assert(tail[i] == name[i + 1]);
                }
            }
        }
        lemma_escaped_reads_back(tail, quoted, rest);
        assert(text == escaped_char(c, quoted) + inner);
        assert(with_first(c, with_prefix(tail, after)) == with_prefix(name, after)) by {
            if after is Some {
                assert(seq![c] + (tail + after->0) == name + after->0);
            }
        }
        if c != '\'' {
            assert(text[0] == c);
            assert(text.drop_first() == inner);
            if !quoted {
                assert(!needs_quoting(c));
            }
        } else if quoted {
            let t1 = seq!['\\', '\'', '\''] + inner;
            let t2 = seq!['\''] + inner;
            assert(text[0] == '\'');
            assert(text.drop_first() == t1);
            assert(t1[0] == '\\' && t1[1] == '\'');
            assert(t1.subrange(2, t1.len() as int) == t2);
            assert(t2[0] == '\'');
            assert(t2.drop_first() == inner);
            assert(shell_word_from(false, t2) == shell_word_from(true, inner));
            assert(shell_word_from(false, t1) == with_first('\'', shell_word_from(false, t2)));
            assert(shell_word_from(true, text) == shell_word_from(false, t1));
        } else {
            assert(text[0] == '\\' && text[1] == '\'');
            assert(text.subrange(2, text.len() as int) == inner);
        }
    }
}

/// A template that holds `%s` inside single quotes puts any file name there
/// so that the shell reads it back as one argument, the file name itself.
pub proof fn lemma_quoted_placeholder_is_one_argument(filename: Seq<char>, mimetype: Seq<char>)
    ensures
        substituted("'%s'"@, filename, mimetype) == seq!['\''] + escaped(filename, true) + seq![
            '\'',
        ],
        shell_argument(substituted("'%s'"@, filename, mimetype)) == Some(filename),
{
    reveal_strlit("'%s'");
    let t0 = "'%s'"@;
    let t1 = t0.drop_first();
    let t2 = t1.drop_first();
    let t3 = t2.drop_first();
    let t4 = t3.drop_first();
    assert(t0.len() == 4 && t0[0] == '\'' && t0[1] == '%' && t0[2] == 's' && t0[3] == '\'');
    assert(t1.len() == 3 && t1[0] == '%' && t1[1] == 's' && t1[2] == '\'');
    assert(t2.len() == 2 && t2[0] == 's' && t2[1] == '\'');
    assert(t3.len() == 1 && t3[0] == '\'');
    assert(t4.len() == 0);
    let s4 = substituted_from(ReplaceState::Plain, false, t4, filename, mimetype);
    let s3 = substituted_from(ReplaceState::Plain, true, t3, filename, mimetype);
    let s2 = substituted_from(ReplaceState::AfterPercent, true, t2, filename, mimetype);
    let s1 = substituted_from(ReplaceState::Plain, true, t1, filename, mimetype);
    let s0 = substituted_from(ReplaceState::Plain, false, t0, filename, mimetype);
    assert(s4 == Seq::<char>::empty());
    assert(s3 == seq!['\''] + s4);
    assert(s3 == seq!['\'']);
    assert(s2 == escaped(filename, true) + s3);
    assert(s1 == Seq::<char>::empty() + s2);
    assert(s1 == s2);
    assert(s0 == seq!['\''] + s1);
    let body = escaped(filename, true) + seq!['\''];
    assert(s0 == seq!['\''] + body);
    assert(s0 == seq!['\''] + escaped(filename, true) + seq!['\'']);
    lemma_escaped_reads_back(filename, true, seq!['\'']);
    let close = seq!['\''];
    assert(close.drop_first() == Seq::<char>::empty());
    assert(shell_word_from(false, close.drop_first()) == Some(Seq::<char>::empty()));
    assert(shell_word_from(true, close) == Some(Seq::<char>::empty()));
    assert(filename + Seq::<char>::empty() == filename);
    assert(shell_word_from(true, body) == Some(filename));
    assert(s0[0] == '\'');
    assert(s0.drop_first() == body);
}

/// A template that holds `%s` outside quotes puts a file name there so that
/// the shell reads it back as one argument, the file name itself, provided
/// the name is not empty and each of its characters is a single quote or
/// needs no quoting.
pub proof fn lemma_bare_placeholder_is_one_argument(filename: Seq<char>, mimetype: Seq<char>)
    requires
        filename.len() > 0,
        safe_unquoted(filename),
    ensures
        substituted("%s"@, filename, mimetype) == escaped(filename, false),
        shell_argument(substituted("%s"@, filename, mimetype)) == Some(filename),
{
    reveal_strlit("%s");
    let t0 = "%s"@;
    let t1 = t0.drop_first();
    let t2 = t1.drop_first();
    assert(t0.len() == 2 && t0[0] == '%' && t0[1] == 's');
    assert(t1.len() == 1 && t1[0] == 's');
    assert(t2.len() == 0);
    let s2 = substituted_from(ReplaceState::Plain, false, t2, filename, mimetype);
    let s1 = substituted_from(ReplaceState::AfterPercent, false, t1, filename, mimetype);
    let s0 = substituted_from(ReplaceState::Plain, false, t0, filename, mimetype);
    assert(s2 == Seq::<char>::empty());
    assert(s1 == escaped(filename, false) + s2);
    assert(s1 == escaped(filename, false));
    assert(s0 == Seq::<char>::empty() + s1);
    assert(s0 == escaped(filename, false));
    lemma_escaped_reads_back(filename, false, Seq::empty());
    assert(escaped(filename, false) + Seq::<char>::empty() == escaped(filename, false));
    assert(filename + Seq::<char>::empty() == filename);
    assert(escaped(filename, false).len() > 0) by {
        assert(escaped(filename, false) == escaped_char(filename[0], false) + escaped(
            filename.drop_first(),
            false,
        ));
    }
}

} // verus!
