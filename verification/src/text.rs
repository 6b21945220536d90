//! Character sequences: the mathematical vocabulary shared by the parsers
//! (`position`, `split_on`, `trim`, `split_lines`) and the executable
//! functions that compute them on `&[char]`.

use vstd::prelude::*;

verus! {

/// `String::push` appends one character to the string.
///
/// Trusted: the standard library documents it as "appends the given char to
/// the end of this String".
pub assume_specification[ String::push ](s: &mut String, c: char)
    ensures
        final(s)@ == old(s)@.push(c),
;

/// Whether `c` has the Unicode property `White_Space`, as `char::is_whitespace`
/// reports it.
pub uninterp spec fn is_white_space(c: char) -> bool;

/// `char::is_whitespace` depends on the character alone.
///
/// Trusted: the standard library decides it from a fixed table of the Unicode
/// character database; the contract only gives that answer a name.
pub assume_specification[ char::is_whitespace ](c: char) -> (blank: bool)
    ensures
        blank == is_white_space(c),
;

/// The characters of `s`, in order.
pub fn chars_of(s: &str) -> (out: Vec<char>)
    ensures
        out@ == s@,
{
    let mut out: Vec<char> = Vec::new();
    for c in it: s.chars()
        invariant
            it.seq() == s@,
            out@ == s@.subrange(0, it.index() as int),
    {
        out.push(c);
    }
    out
}

/// The string made of the characters of `chars`, in order.
pub fn string_of(chars: &[char]) -> (out: String)
    ensures
        out@ == chars@,
{
    let mut out = String::new();
    let mut i: usize = 0;
    while i < chars.len()
        invariant
            i <= chars.len(),
            out@ == chars@.subrange(0, i as int),
        decreases chars.len() - i,
    {
        out.push(chars[i]);
        i += 1;
    }
    out
}

/// A copy of `chars[from..to]`.
pub fn copy_range(chars: &[char], from: usize, to: usize) -> (out: Vec<char>)
    requires
        from <= to <= chars.len(),
    ensures
        out@ == chars@.subrange(from as int, to as int),
{
    let mut out: Vec<char> = Vec::new();
    let mut i: usize = from;
    while i < to
        invariant
            from <= i <= to <= chars.len(),
            out@ == chars@.subrange(from as int, i as int),
        decreases to - i,
    {
        out.push(chars[i]);
        i += 1;
    }
    out
}

/// Whether `a` and `b` hold the same characters.
pub fn same_chars(a: &[char], b: &[char]) -> (same: bool)
    ensures
        same == (a@ == b@),
{
    if a.len() != b.len() {
        return false;
    }
    let mut i: usize = 0;
    while i < a.len()
        invariant
            i <= a.len(),
            a.len() == b.len(),
            a@.subrange(0, i as int) == b@.subrange(0, i as int),
        decreases a.len() - i,
    {
        if a[i] != b[i] {
            return false;
        }
        assert(a@.subrange(0, i + 1) == a@.subrange(0, i as int).push(a@[i as int]));
        assert(b@.subrange(0, i + 1) == b@.subrange(0, i as int).push(b@[i as int]));
        i += 1;
    }
    assert(a@ == a@.subrange(0, i as int));
    assert(b@ == b@.subrange(0, i as int));
    true
}

/// Whether `chars` spells exactly the string `word`.
pub fn spells(chars: &[char], word: &str) -> (same: bool)
    ensures
        same == (chars@ == word@),
{
    let other = chars_of(word);
    same_chars(chars, other.as_slice())
}

/// Index of the first `c` in `s`, or `s.len()` where `s` holds none.
pub open spec fn position(s: Seq<char>, c: char) -> int
    decreases s.len(),
{
    if s.len() == 0 || s[0] == c {
        0
    } else {
        1 + position(s.drop_first(), c)
    }
}

/// `position` lies within `s`, nothing before it is `c`, and `c` stands at it
/// when it is an index of `s`.
pub proof fn lemma_position(s: Seq<char>, c: char)
    ensures
        0 <= position(s, c) <= s.len(),
        forall|j: int| 0 <= j < position(s, c) ==> s[j] != c,
        position(s, c) < s.len() ==> s[position(s, c)] == c,
    decreases s.len(),
{
    if s.len() == 0 || s[0] == c {
    } else {
        let rest = s.drop_first();
        lemma_position(rest, c);
        assert forall|j: int| 0 <= j < position(s, c) implies s[j] != c by {
            if j > 0 {
                assert(s[j] == rest[j - 1]);
            }
        }
        assert(s[position(s, c)] == rest[position(rest, c)] || position(s, c) == s.len());
    }
}

/// The index `k` is `position(s, c)` when no `c` stands before it and either
/// `c` stands at it or `s` ends there.
pub proof fn lemma_position_is(s: Seq<char>, c: char, k: int)
    requires
        0 <= k <= s.len(),
        forall|j: int| 0 <= j < k ==> s[j] != c,
        k < s.len() ==> s[k] == c,
    ensures
        position(s, c) == k,
    decreases s.len(),
{
    if s.len() == 0 || s[0] == c {
    } else {
        let rest = s.drop_first();
        assert forall|j: int| 0 <= j < k - 1 implies rest[j] != c by {
            assert(rest[j] == s[j + 1]);
        }
        lemma_position_is(rest, c, k - 1);
    }
}

/// Index of the first `c` at or after `from`, or `chars.len()` where there is none.
pub fn find(chars: &[char], from: usize, c: char) -> (at: usize)
    requires
        from <= chars.len(),
    ensures
        from <= at <= chars.len(),
        at == from + position(chars@.subrange(from as int, chars.len() as int), c),
{
    let mut at: usize = from;
    while at < chars.len() && chars[at] != c
        invariant
            from <= at <= chars.len(),
            forall|j: int| from <= j < at ==> chars@[j] != c,
        decreases chars.len() - at,
    {
        at += 1;
    }
    proof {
        lemma_position_is(chars@.subrange(from as int, chars.len() as int), c, at - from);
    }
    at
}

/// The view of each vector of `parts`.
pub open spec fn rows(parts: Seq<Vec<char>>) -> Seq<Seq<char>> {
    parts.map_values(|part: Vec<char>| part@)
}

/// The pieces of `s` between occurrences of `sep`: one more piece than `s`
/// holds separators, so at least one, and empty pieces are kept.
pub open spec fn split_on(s: Seq<char>, sep: char) -> Seq<Seq<char>>
    decreases s.len(),
{
    let p = position(s, sep);
    if 0 <= p < s.len() {
        seq![s.subrange(0, p)] + split_on(s.subrange(p + 1, s.len() as int), sep)
    } else {
        seq![s]
    }
}

/// `split_on` never yields an empty sequence of pieces, and its first piece is
/// what stands before the first separator.
pub proof fn lemma_split_on_first(s: Seq<char>, sep: char)
    ensures
        split_on(s, sep).len() >= 1,
        split_on(s, sep)[0] == s.subrange(0, position(s, sep)),
{
    lemma_position(s, sep);
    if position(s, sep) == s.len() {
        assert(s.subrange(0, s.len() as int) == s);
    }
}

/// The pieces of `chars` between occurrences of `sep`.
pub fn split(chars: &[char], sep: char) -> (parts: Vec<Vec<char>>)
    ensures
        rows(parts@) == split_on(chars@, sep),
{
    let mut parts: Vec<Vec<char>> = Vec::new();
    let mut start: usize = 0;
    let mut done = false;
    proof {
        assert(chars@.subrange(0, chars.len() as int) == chars@);
        assert(rows(parts@) + split_on(chars@, sep) == split_on(chars@, sep));
    }
    while !done
        invariant
            start <= chars.len(),
            !done ==> rows(parts@) + split_on(
                chars@.subrange(start as int, chars.len() as int),
                sep,
            ) == split_on(chars@, sep),
            done ==> rows(parts@) == split_on(chars@, sep),
        decreases chars.len() - start + (if done { 0int } else { 1int }),
    {
        let ghost rest = chars@.subrange(start as int, chars.len() as int);
        let ghost before = rows(parts@);
        let at = find(chars, start, sep);
        let part = copy_range(chars, start, at);
        parts.push(part);
        proof {
            lemma_position(rest, sep);
            assert(part@ == rest.subrange(0, position(rest, sep)));
            assert(rows(parts@) == before.push(part@));
        }
        if at == chars.len() {
            proof {
                assert(rest.subrange(0, rest.len() as int) == rest);
                assert(split_on(rest, sep) == seq![rest]);
                assert(before.push(part@) == before + seq![rest]);
            }
            done = true;
        } else {
            proof {
                let tail = rest.subrange(position(rest, sep) + 1, rest.len() as int);
                assert(tail == chars@.subrange(at + 1, chars.len() as int));
                assert(split_on(rest, sep) == seq![part@] + split_on(tail, sep));
                assert(before.push(part@) + split_on(tail, sep) == before + (seq![part@]
                    + split_on(tail, sep)));
            }
            start = at + 1;
        }
    }
    parts
}

/// How many characters at the start of `s` are whitespace.
pub open spec fn leading_blanks(s: Seq<char>) -> int
    decreases s.len(),
{
    if s.len() > 0 && is_white_space(s[0]) {
        1 + leading_blanks(s.drop_first())
    } else {
        0
    }
}

/// How many characters at the end of `s` are whitespace.
pub open spec fn trailing_blanks(s: Seq<char>) -> int
    decreases s.len(),
{
    if s.len() > 0 && is_white_space(s.last()) {
        1 + trailing_blanks(s.drop_last())
    } else {
        0
    }
}

/// `s` without the whitespace at its start.
pub open spec fn trim_start(s: Seq<char>) -> Seq<char> {
    s.subrange(leading_blanks(s), s.len() as int)
}

/// `s` without the whitespace at its end.
pub open spec fn trim_end(s: Seq<char>) -> Seq<char> {
    s.subrange(0, s.len() - trailing_blanks(s))
}

/// `s` without the whitespace at its start and at its end.
pub open spec fn trim(s: Seq<char>) -> Seq<char> {
    trim_end(trim_start(s))
}

/// `k` is `leading_blanks(s)` when the first `k` characters are whitespace and
/// the next one, if any, is not.
pub proof fn lemma_leading_blanks_is(s: Seq<char>, k: int)
    requires
        0 <= k <= s.len(),
        forall|j: int| 0 <= j < k ==> is_white_space(s[j]),
        k < s.len() ==> !is_white_space(s[k]),
    ensures
        leading_blanks(s) == k,
    decreases s.len(),
{
    if k > 0 {
        let rest = s.drop_first();
        assert(is_white_space(s[0]));
        assert forall|j: int| 0 <= j < k - 1 implies is_white_space(rest[j]) by {
            assert(rest[j] == s[j + 1]);
        }
        lemma_leading_blanks_is(rest, k - 1);
    }
}

/// `k` is `trailing_blanks(s)` when the last `k` characters are whitespace and
/// the one before them, if any, is not.
pub proof fn lemma_trailing_blanks_is(s: Seq<char>, k: int)
    requires
        0 <= k <= s.len(),
        forall|j: int| s.len() - k <= j < s.len() ==> is_white_space(s[j]),
        k < s.len() ==> !is_white_space(s[s.len() - k - 1]),
    ensures
        trailing_blanks(s) == k,
    decreases s.len(),
{
    if k > 0 {
        let rest = s.drop_last();
        assert(is_white_space(s[s.len() - 1]));
        assert forall|j: int| rest.len() - (k - 1) <= j < rest.len() implies is_white_space(
            rest[j],
        ) by {
            assert(rest[j] == s[j]);
        }
        lemma_trailing_blanks_is(rest, k - 1);
    }
}

/// `chars[from..to]` without the whitespace at its start and at its end.
pub fn trimmed(chars: &[char], from: usize, to: usize) -> (out: Vec<char>)
    requires
        from <= to <= chars.len(),
    ensures
        out@ == trim(chars@.subrange(from as int, to as int)),
{
    let ghost whole = chars@.subrange(from as int, to as int);
    let mut first: usize = from;
    while first < to && chars[first].is_whitespace()
        invariant
            from <= first <= to <= chars.len(),
            forall|j: int| from <= j < first ==> is_white_space(chars@[j]),
        decreases to - first,
    {
        first += 1;
    }
    let ghost middle = chars@.subrange(first as int, to as int);
    let mut last: usize = to;
    while last > first && chars[last - 1].is_whitespace()
        invariant
            first <= last <= to <= chars.len(),
            forall|j: int| last <= j < to ==> is_white_space(chars@[j]),
        decreases last - first,
    {
        last -= 1;
    }
    proof {
        lemma_leading_blanks_is(whole, first - from);
        assert(trim_start(whole) == middle);
        lemma_trailing_blanks_is(middle, to - last);
        assert(trim_end(middle) == chars@.subrange(first as int, last as int));
    }
    copy_range(chars, first, last)
}

/// A line as it is handed on: without the carriage return that stood before
/// its line feed.
pub open spec fn strip_return(line: Seq<char>) -> Seq<char> {
    if line.len() > 0 && line.last() == '\r' {
        line.drop_last()
    } else {
        line
    }
}

/// The lines of `content`. Each line feed ends a line, and a carriage return
/// just before it belongs to the line ending; what follows the last line
/// feed is a line too, unless it is empty.
pub open spec fn split_lines(content: Seq<char>) -> Seq<Seq<char>>
    decreases content.len(),
{
    let p = position(content, '\n');
    if content.len() == 0 {
        Seq::empty()
    } else if 0 <= p < content.len() {
        seq![strip_return(content.subrange(0, p))] + split_lines(
            content.subrange(p + 1, content.len() as int),
        )
    } else {
        seq![content]
    }
}

/// A text that starts with a line and its line feed has that line first,
/// and then the lines of what follows.
pub proof fn lemma_split_lines_first(line: Seq<char>, rest: Seq<char>)
    requires
        position(line, '\n') == line.len(),
    ensures
        split_lines(line + seq!['\n'] + rest) == seq![strip_return(line)] + split_lines(rest),
{
    let text = line + seq!['\n'] + rest;
    lemma_position(line, '\n');
    assert forall|j: int| 0 <= j < line.len() implies text[j] != '\n' by {
        assert(text[j] == line[j]);
    }
    assert(text[line.len() as int] == '\n');
    lemma_position_is(text, '\n', line.len() as int);
    assert(text.subrange(0, line.len() as int) == line);
    assert(text.subrange(line.len() as int + 1, text.len() as int) == rest);
}

/// The lines of two texts written one after the other are the lines of the
/// first and then those of the second, where the first is empty or ends in
/// a line feed.
pub proof fn lemma_split_lines_concat(first: Seq<char>, second: Seq<char>)
    requires
        first.len() == 0 || first.last() == '\n',
    ensures
        split_lines(first + second) == split_lines(first) + split_lines(second),
    decreases first.len(),
{
    if first.len() == 0 {
        assert(first + second == second);
        assert(split_lines(first) + split_lines(second) == split_lines(second));
    } else {
        lemma_position(first, '\n');
        let p = position(first, '\n');
        let line = first.subrange(0, p);
        let tail = first.subrange(p + 1, first.len() as int);
        assert(first == line + seq!['\n'] + tail);
        assert(position(line, '\n') == line.len()) by {
            lemma_position_is(line, '\n', line.len() as int);
        }
        assert(tail.len() == 0 || tail.last() == '\n') by {
            if tail.len() > 0 {
                assert(tail.last() == first.last());
            }
        }
        lemma_split_lines_first(line, tail);
        lemma_split_lines_first(line, tail + second);
        lemma_split_lines_concat(tail, second);
        assert(first + second == line + seq!['\n'] + (tail + second));
        assert(seq![strip_return(line)] + (split_lines(tail) + split_lines(second)) == seq![
            strip_return(line),
        ] + split_lines(tail) + split_lines(second));
    }
}

/// The lines of `content`.
pub fn lines(content: &[char]) -> (out: Vec<Vec<char>>)
    ensures
        rows(out@) == split_lines(content@),
{
    let mut out: Vec<Vec<char>> = Vec::new();
    let mut start: usize = 0;
    proof {
        assert(content@.subrange(0, content.len() as int) == content@);
        assert(rows(out@) + split_lines(content@) == split_lines(content@));
    }
    while start < content.len()
        invariant
            start <= content.len(),
            rows(out@) + split_lines(content@.subrange(start as int, content.len() as int))
                == split_lines(content@),
        decreases content.len() - start,
    {
        let ghost rest = content@.subrange(start as int, content.len() as int);
        let ghost before = rows(out@);
        let at = find(content, start, '\n');
        proof {
            lemma_position(rest, '\n');
        }
        if at == content.len() {
            let line = copy_range(content, start, at);
            out.push(line);
            proof {
                assert(line@ == rest);
                assert(rows(out@) == before.push(line@));
                assert(before.push(line@) == before + seq![rest]);
                assert(content@.subrange(at as int, content.len() as int) == Seq::<char>::empty());
                assert(before + seq![rest] + Seq::<Seq<char>>::empty() == before + seq![rest]);
            }
            start = at;
        } else {
            let end = if at > start && content[at - 1] == '\r' {
                at - 1
            } else {
                at
            };
            let line = copy_range(content, start, end);
            out.push(line);
            proof {
                let raw = rest.subrange(0, position(rest, '\n'));
                let tail = rest.subrange(position(rest, '\n') + 1, rest.len() as int);
                assert(raw == content@.subrange(start as int, at as int));
                assert(line@ == strip_return(raw));
                assert(tail == content@.subrange(at + 1, content.len() as int));
                assert(rows(out@) == before.push(line@));
                assert(before.push(line@) + split_lines(tail) == before + (seq![line@]
                    + split_lines(tail)));
            }
            start = at + 1;
        }
    }
    proof {
        assert(content@.subrange(start as int, content.len() as int) == Seq::<char>::empty());
        assert(rows(out@) + Seq::<Seq<char>>::empty() == rows(out@));
    }
    out
}

/// What follows the last `sep` in `s`, or `s` itself where it holds none.
pub open spec fn after_last(s: Seq<char>, sep: char) -> Seq<char>
    decreases s.len(),
{
    let p = position(s, sep);
    if 0 <= p < s.len() {
        after_last(s.subrange(p + 1, s.len() as int), sep)
    } else {
        s
    }
}

/// What follows the last `sep` in `chars`.
pub fn last_part(chars: &[char], sep: char) -> (part: Vec<char>)
    ensures
        part@ == after_last(chars@, sep),
{
    let mut start: usize = 0;
    let mut at = find(chars, 0, sep);
    proof {
        assert(chars@.subrange(0, chars.len() as int) == chars@);
    }
    while at < chars.len()
        invariant
            start <= at <= chars.len(),
            at == start + position(chars@.subrange(start as int, chars.len() as int), sep),
            after_last(chars@.subrange(start as int, chars.len() as int), sep) == after_last(
                chars@,
                sep,
            ),
        decreases chars.len() - start,
    {
        let ghost rest = chars@.subrange(start as int, chars.len() as int);
        assert(rest.subrange(at - start + 1, rest.len() as int) == chars@.subrange(
            at + 1,
            chars.len() as int,
        ));
        start = at + 1;
        at = find(chars, start, sep);
    }
    copy_range(chars, start, chars.len())
}

/// How often `c` occurs in `s`.
pub open spec fn occurrences(s: Seq<char>, c: char) -> int
    decreases s.len(),
{
    if s.len() == 0 {
        0
    } else {
        (if s[0] == c {
            1int
        } else {
            0int
        }) + occurrences(s.drop_first(), c)
    }
}

/// Whether `c` occurs in `chars` exactly once.
pub fn occurs_once(chars: &[char], c: char) -> (once: bool)
    ensures
        once == (occurrences(chars@, c) == 1),
{
    let mut seen: usize = 0;
    let mut i: usize = 0;
    proof {
        assert(chars@.subrange(0, chars.len() as int) == chars@);
    }
    while i < chars.len()
        invariant
            i <= chars.len(),
            seen <= i,
            seen + occurrences(chars@.subrange(i as int, chars.len() as int), c) == occurrences(
                chars@,
                c,
            ),
        decreases chars.len() - i,
    {
        let ghost rest = chars@.subrange(i as int, chars.len() as int);
        assert(rest.drop_first() == chars@.subrange(i + 1, chars.len() as int));
        if chars[i] == c {
            seen += 1;
        }
        i += 1;
    }
    assert(chars@.subrange(i as int, chars.len() as int).len() == 0);
    seen == 1
}

/// The word `current`, if it is one: the empty text is no word.
pub open spec fn word_if_any(current: Seq<char>) -> Seq<Seq<char>> {
    if current.len() > 0 {
        seq![current]
    } else {
        Seq::empty()
    }
}

/// The words of `s` where `current` is the part already read of the word
/// that `s` starts in.
pub open spec fn words_from(current: Seq<char>, s: Seq<char>) -> Seq<Seq<char>>
    decreases s.len(),
{
    if s.len() == 0 {
        word_if_any(current)
    } else if is_white_space(s[0]) {
        word_if_any(current) + words_from(Seq::empty(), s.drop_first())
    } else {
        words_from(current.push(s[0]), s.drop_first())
    }
}

/// The words of `s`: its longest runs of characters that are not whitespace.
pub open spec fn words(s: Seq<char>) -> Seq<Seq<char>> {
    words_from(Seq::empty(), s)
}

/// The words of `chars`.
pub fn split_words(chars: &[char]) -> (out: Vec<Vec<char>>)
    ensures
        rows(out@) == words(chars@),
{
    let mut out: Vec<Vec<char>> = Vec::new();
    let mut current: Vec<char> = Vec::new();
    let mut i: usize = 0;
    proof {
        assert(chars@.subrange(0, chars.len() as int) == chars@);
        assert(rows(out@) + words(chars@) == words(chars@));
    }
    while i < chars.len()
        invariant
            i <= chars.len(),
            rows(out@) + words_from(current@, chars@.subrange(i as int, chars.len() as int))
                == words(chars@),
        decreases chars.len() - i,
    {
        let ghost rest = chars@.subrange(i as int, chars.len() as int);
        let ghost before = rows(out@);
        let ghost word = current@;
        assert(rest.drop_first() == chars@.subrange(i + 1, chars.len() as int));
        let ghost tail = words_from(Seq::empty(), rest.drop_first());
        assert(rest[0] == chars@[i as int]);
        if chars[i].is_whitespace() {
            assert(words_from(word, rest) == word_if_any(word) + tail);
            if current.len() > 0 {
                out.push(current);
                current = Vec::new();
                proof {
                    assert(rows(out@) == before.push(word));
                    assert(before.push(word) + tail == before + (seq![word] + tail));
                }
            } else {
                proof {
                    assert(word == Seq::<char>::empty());
                    assert(before + (Seq::<Seq<char>>::empty() + tail) == before + tail);
                }
            }
        } else {
            current.push(chars[i]);
            assert(words_from(word, rest) == words_from(word.push(rest[0]), rest.drop_first()));
        }
        i += 1;
    }
    assert(chars@.subrange(i as int, chars.len() as int).len() == 0);
    let ghost before = rows(out@);
    let ghost word = current@;
    if current.len() > 0 {
        out.push(current);
        proof {
            assert(rows(out@) == before.push(word));
            assert(before.push(word) == before + seq![word]);
        }
    } else {
        proof {
            assert(before + Seq::<Seq<char>>::empty() == before);
        }
    }
    out
}

/// `s` in lower case, as `str::to_lowercase` gives it.
pub uninterp spec fn lowercase(s: Seq<char>) -> Seq<char>;

/// `str::to_lowercase` depends on the text alone.
///
/// Trusted: the standard library computes it from the Unicode property
/// `Lowercase` and the text; the contract only gives that result a name.
pub assume_specification[ str::to_lowercase ](s: &str) -> (lower: String)
    ensures
        lower@ == lowercase(s@),
;

/// The text of each file of `files` that could be opened.
pub open spec fn contents(files: Seq<Option<String>>) -> Seq<Option<Seq<char>>> {
    files.map_values(
        |file: Option<String>|
            match file {
                Some(content) => Some(content@),
                None => None,
            },
    )
}

/// Whether at least one of `files` could be opened.
pub open spec fn any_opened(files: Seq<Option<Seq<char>>>) -> bool {
    exists|i: int| 0 <= i < files.len() && (#[trigger] files[i]) is Some
}

} // verus!
