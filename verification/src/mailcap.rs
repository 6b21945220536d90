//! The mailcap database: its entries, how a line of it is read, and which
//! entries of a file concern a MIME type.

use vstd::prelude::*;
use crate::error::LookupError;
use crate::text::any_opened;
use crate::text::chars_of;
use crate::text::contents;
use crate::text::copy_range;
use crate::text::find;
use crate::text::lemma_position;
use crate::text::lemma_position_is;
use crate::text::lemma_split_lines_concat;
use crate::text::lemma_split_lines_first;
use crate::text::lemma_split_on_first;
use crate::text::lines;
use crate::text::position;
use crate::text::rows;
use crate::text::same_chars;
use crate::text::spells;
use crate::text::split;
use crate::text::split_lines;
use crate::text::split_on;
use crate::text::strip_return;
use crate::text::string_of;
use crate::text::trim;
use crate::text::trimmed;

verus! {

/// One record of the database: a command template for each action, an
/// optional test, and two flags.
#[derive(Debug)]
pub struct MailcapEntry {
    pub view: String,
    pub edit: String,
    pub compose: String,
    pub print: String,
    pub test: String,
    pub needsterminal: bool,
    pub copiousoutput: bool,
}

/// The mathematical value of a `MailcapEntry`.
pub ghost struct MailcapEntryView {
    pub view: Seq<char>,
    pub edit: Seq<char>,
    pub compose: Seq<char>,
    pub print: Seq<char>,
    pub test: Seq<char>,
    pub needsterminal: bool,
    pub copiousoutput: bool,
}

impl View for MailcapEntry {
    type V = MailcapEntryView;

    open spec fn view(&self) -> MailcapEntryView {
        MailcapEntryView {
            view: self.view@,
            edit: self.edit@,
            compose: self.compose@,
            print: self.print@,
            test: self.test@,
            needsterminal: self.needsterminal,
            copiousoutput: self.copiousoutput,
        }
    }
}

/// The value of each entry of `entries`.
pub open spec fn entry_views(entries: Seq<MailcapEntry>) -> Seq<MailcapEntryView> {
    entries.map_values(|entry: MailcapEntry| entry@)
}

/// The entry with no command, no test and no flag.
pub open spec fn empty_entry() -> MailcapEntryView {
    MailcapEntryView {
        view: Seq::empty(),
        edit: Seq::empty(),
        compose: Seq::empty(),
        print: Seq::empty(),
        test: Seq::empty(),
        needsterminal: false,
        copiousoutput: false,
    }
}

impl Default for MailcapEntry {
    fn default() -> (entry: MailcapEntry)
        ensures
            entry@ == empty_entry(),
    {
        MailcapEntry {
            view: String::new(),
            edit: String::new(),
            compose: String::new(),
            print: String::new(),
            test: String::new(),
            needsterminal: false,
            copiousoutput: false,
        }
    }
}

/// Whether one component of a pattern admits one component of a type: `*`
/// admits any, and any other admits only itself, character for character.
pub open spec fn component_matches(pattern: Seq<char>, subject: Seq<char>) -> bool {
    pattern == seq!['*'] || pattern == subject
}

/// Whether the pattern of a database line admits a MIME type. The pattern
/// has exactly two components between slashes, and each admits the component
/// of the type at its place, as far as the type has one.
pub open spec fn types_match(pattern: Seq<char>, subject: Seq<char>) -> bool {
    let p = split_on(pattern, '/');
    let s = split_on(subject, '/');
    &&& p.len() == 2
    &&& component_matches(p[0], s[0])
    &&& s.len() >= 2 ==> component_matches(p[1], s[1])
}

fn component_admits(pattern: &[char], subject: &[char]) -> (admits: bool)
    ensures
        admits == component_matches(pattern@, subject@),
{
    if pattern.len() == 1 && pattern[0] == '*' {
        assert(pattern@ == seq!['*']);
        true
    } else {
        same_chars(pattern, subject)
    }
}

/// Whether the pattern `pattern` admits the MIME type `subject`.
pub fn types_admit(pattern: &[char], subject: &[char]) -> (matches: bool)
    ensures
        matches == types_match(pattern@, subject@),
{
    let p = split(pattern, '/');
    let s = split(subject, '/');
    proof {
        lemma_split_on_first(subject@, '/');
        assert(rows(p@).len() == p.len());
        assert(rows(s@).len() == s.len());
    }
    if p.len() != 2 {
        return false;
    }
    assert(rows(p@)[0] == p[0]@ && rows(p@)[1] == p[1]@);
    assert(rows(s@)[0] == s[0]@);
    if !component_admits(p[0].as_slice(), s[0].as_slice()) {
        return false;
    }
    if s.len() >= 2 {
        assert(rows(s@)[1] == s[1]@);
        component_admits(p[1].as_slice(), s[1].as_slice())
    } else {
        true
    }
}

/// Whether the pattern `mailcap_mime_type` of a database line admits the MIME
/// type `mime_type`.
pub fn mime_types_match(mailcap_mime_type: &str, mime_type: &str) -> (matches: bool)
    ensures
        matches == types_match(mailcap_mime_type@, mime_type@),
{
    let pattern = chars_of(mailcap_mime_type);
    let subject = chars_of(mime_type);
    types_admit(pattern.as_slice(), subject.as_slice())
}

/// `entry` after one modifier field. A field `key=value` with the key
/// `edit`, `compose`, `print` or `test` sets that command to the value as it
/// stands; a field without `=` that is `needsterminal` or `copiousoutput`
/// sets that flag. Whitespace around the key does not count, and any other
/// field changes nothing.
pub open spec fn with_modifier(entry: MailcapEntryView, item: Seq<char>) -> MailcapEntryView {
    let eq = position(item, '=');
    let key = trim(item.subrange(0, eq));
    if eq < item.len() {
        let value = item.subrange(eq + 1, item.len() as int);
        if key == "edit"@ {
            MailcapEntryView { edit: value, ..entry }
        } else if key == "compose"@ {
            MailcapEntryView { compose: value, ..entry }
        } else if key == "print"@ {
            MailcapEntryView { print: value, ..entry }
        } else if key == "test"@ {
            MailcapEntryView { test: value, ..entry }
        } else {
            entry
        }
    } else if key == "needsterminal"@ {
        MailcapEntryView { needsterminal: true, ..entry }
    } else if key == "copiousoutput"@ {
        MailcapEntryView { copiousoutput: true, ..entry }
    } else {
        entry
    }
}

/// `entry` after the modifier fields `items`, taken in order.
pub open spec fn with_modifiers(entry: MailcapEntryView, items: Seq<Seq<char>>) -> MailcapEntryView
    decreases items.len(),
{
    if items.len() == 0 {
        entry
    } else {
        with_modifiers(with_modifier(entry, items[0]), items.drop_first())
    }
}

/// The entry that a logical line holds for a MIME type. The line is split at
/// each `;`. There is an entry when the first field admits the type and a
/// second field exists: that field, without the whitespace around it, is the
/// `view` command, and the fields after it are modifiers.
pub open spec fn parsed_line(line: Seq<char>, mime_type: Seq<char>) -> Option<MailcapEntryView> {
    let items = split_on(line, ';');
    if items.len() >= 2 && types_match(items[0], mime_type) {
        Some(
            with_modifiers(
                MailcapEntryView { view: trim(items[1]), ..empty_entry() },
                items.subrange(2, items.len() as int),
            ),
        )
    } else {
        None
    }
}

/// Applies one modifier field to `entry`.
pub fn apply_modifier(entry: &mut MailcapEntry, item: &[char])
    ensures
        final(entry)@ == with_modifier(old(entry)@, item@),
{
    let eq = find(item, 0, '=');
    proof {
        assert(item@.subrange(0, item.len() as int) == item@);
        lemma_position(item@, '=');
    }
    let key = trimmed(item, 0, eq);
    if eq < item.len() {
        let value = copy_range(item, eq + 1, item.len());
        if spells(key.as_slice(), "edit") {
            entry.edit = string_of(value.as_slice());
        } else if spells(key.as_slice(), "compose") {
            entry.compose = string_of(value.as_slice());
        } else if spells(key.as_slice(), "print") {
            entry.print = string_of(value.as_slice());
        } else if spells(key.as_slice(), "test") {
            entry.test = string_of(value.as_slice());
        }
    } else if spells(key.as_slice(), "needsterminal") {
        entry.needsterminal = true;
    } else if spells(key.as_slice(), "copiousoutput") {
        entry.copiousoutput = true;
    }
}

/// The entry that the logical line `line` holds for the MIME type
/// `mime_type`, if it holds one.
pub fn parse_fields(line: &[char], mime_type: &[char]) -> (parsed: Option<MailcapEntry>)
    ensures
        match parsed {
            Some(entry) => parsed_line(line@, mime_type@) == Some(entry@),
            None => parsed_line(line@, mime_type@) is None,
        },
{
    let items = split(line, ';');
    proof {
        lemma_split_on_first(line@, ';');
        assert(rows(items@).len() == items.len());
        assert(rows(items@)[0] == items[0]@);
    }
    if items.len() < 2 || !types_admit(items[0].as_slice(), mime_type) {
        return None;
    }
    assert(rows(items@)[1] == items[1]@);
    let command = trimmed(items[1].as_slice(), 0, items[1].len());
    assert(items[1]@.subrange(0, items[1]@.len() as int) == items[1]@);
    let mut entry = MailcapEntry {
        view: string_of(command.as_slice()),
        edit: String::new(),
        compose: String::new(),
        print: String::new(),
        test: String::new(),
        needsterminal: false,
        copiousoutput: false,
    };
    let ghost first = entry@;
    let ghost fields = rows(items@);
    let mut i: usize = 2;
    while i < items.len()
        invariant
            2 <= i <= items.len(),
            fields == rows(items@),
            with_modifiers(entry@, fields.subrange(i as int, fields.len() as int))
                == with_modifiers(first, fields.subrange(2, fields.len() as int)),
        decreases items.len() - i,
    {
        let ghost rest = fields.subrange(i as int, fields.len() as int);
        assert(rest[0] == items[i as int]@);
        assert(rest.drop_first() == fields.subrange(i + 1, fields.len() as int));
        apply_modifier(&mut entry, items[i].as_slice());
        i += 1;
    }
    assert(fields.subrange(i as int, fields.len() as int).len() == 0);
    Some(entry)
}

/// The entry that the logical line `line` holds for the MIME type
/// `mime_type`, if it holds one.
pub fn parse_line(line: &str, mime_type: &str) -> (parsed: Option<MailcapEntry>)
    ensures
        match parsed {
            Some(entry) => parsed_line(line@, mime_type@) == Some(entry@),
            None => parsed_line(line@, mime_type@) is None,
        },
{
    let line_chars = chars_of(line);
    let type_chars = chars_of(mime_type);
    parse_fields(line_chars.as_slice(), type_chars.as_slice())
}

/// How many backslashes stand at the end of `line`.
pub open spec fn trailing_backslashes(line: Seq<char>) -> int
    decreases line.len(),
{
    if line.len() > 0 && line.last() == '\\' {
        1 + trailing_backslashes(line.drop_last())
    } else {
        0
    }
}

/// Whether `line` ends in a backslash that is not itself escaped by a
/// backslash before it: the backslashes at its end are odd in number.
pub open spec fn is_continued(line: Seq<char>) -> bool {
    trailing_backslashes(line) % 2 == 1
}

/// The entries that the physical lines `lines` hold for a MIME type, where
/// `pending` is what earlier lines have left unfinished. A line that ends in
/// an unescaped backslash is continued by the next one: the backslash goes
/// and nothing takes its place. A finished line that starts with `#` is a
/// comment. Any other finished line gives its entry, if it holds one. What
/// is still unfinished after the last line is dropped.
pub open spec fn logical_entries(
    pending: Seq<char>,
    lines: Seq<Seq<char>>,
    mime_type: Seq<char>,
) -> Seq<MailcapEntryView>
    decreases lines.len(),
{
    if lines.len() == 0 {
        Seq::empty()
    } else {
        let full = pending + lines[0];
        let rest = lines.drop_first();
        if is_continued(full) {
            logical_entries(full.drop_last(), rest, mime_type)
        } else if full.len() > 0 && full[0] == '#' {
            logical_entries(Seq::empty(), rest, mime_type)
        } else {
            match parsed_line(full, mime_type) {
                Some(entry) => seq![entry] + logical_entries(Seq::empty(), rest, mime_type),
                None => logical_entries(Seq::empty(), rest, mime_type),
            }
        }
    }
}

/// What is left unfinished after the physical lines `lines`, where `pending`
/// was unfinished before them.
pub open spec fn pending_after(pending: Seq<char>, lines: Seq<Seq<char>>) -> Seq<char>
    decreases lines.len(),
{
    if lines.len() == 0 {
        pending
    } else {
        let full = pending + lines[0];
        if is_continued(full) {
            pending_after(full.drop_last(), lines.drop_first())
        } else {
            pending_after(Seq::empty(), lines.drop_first())
        }
    }
}

/// `k` is `trailing_backslashes(line)` when the last `k` characters are
/// backslashes and the one before them, if any, is not.
pub proof fn lemma_trailing_backslashes_is(line: Seq<char>, k: int)
    requires
        0 <= k <= line.len(),
        forall|j: int| line.len() - k <= j < line.len() ==> line[j] == '\\',
        k < line.len() ==> line[line.len() - k - 1] != '\\',
    ensures
        trailing_backslashes(line) == k,
    decreases line.len(),
{
    if k > 0 {
        let rest = line.drop_last();
        assert(line[line.len() - 1] == '\\');
        assert forall|j: int| rest.len() - (k - 1) <= j < rest.len() implies rest[j] == '\\' by {
            assert(rest[j] == line[j]);
        }
        lemma_trailing_backslashes_is(rest, k - 1);
    }
}

/// Whether `line` ends in an unescaped backslash.
pub fn ends_unescaped(line: &[char]) -> (continued: bool)
    ensures
        continued == is_continued(line@),
{
    let mut count: usize = 0;
    while count < line.len() && line[line.len() - 1 - count] == '\\'
        invariant
            count <= line.len(),
            forall|j: int| line.len() - count <= j < line.len() ==> line@[j] == '\\',
        decreases line.len() - count,
    {
        count += 1;
    }
    proof {
        lemma_trailing_backslashes_is(line@, count as int);
    }
    count % 2 == 1
}

/// The entries that the text of one database file holds for a MIME type, in
/// the order of its lines.
pub open spec fn file_entries(content: Seq<char>, mime_type: Seq<char>) -> Seq<MailcapEntryView> {
    logical_entries(Seq::empty(), split_lines(content), mime_type)
}

/// The entries that the database files hold for a MIME type: those of each
/// file that could be opened, the files taken in order.
pub open spec fn database_entries(files: Seq<Option<Seq<char>>>, mime_type: Seq<char>) -> Seq<
    MailcapEntryView,
>
    decreases files.len(),
{
    if files.len() == 0 {
        Seq::empty()
    } else {
        let first = match files[0] {
            Some(content) => file_entries(content, mime_type),
            None => Seq::empty(),
        };
        first + database_entries(files.drop_first(), mime_type)
    }
}

/// Appends to `entries` the entries that the text `content` of one database
/// file holds for the MIME type `mime_type`.
pub fn append_file_entries(entries: &mut Vec<MailcapEntry>, content: &[char], mime_type: &[char])
    ensures
        entry_views(final(entries)@) == entry_views(old(entries)@) + file_entries(
            content@,
            mime_type@,
        ),
{
    let physical = lines(content);
    let ghost all = rows(physical@);
    let ghost start = entry_views(entries@);
    let mut fullline: Vec<char> = Vec::new();
    let mut i: usize = 0;
    proof {
        assert(all.subrange(0, all.len() as int) == all);
    }
    while i < physical.len()
        invariant
            i <= physical.len(),
            all == rows(physical@),
            all == split_lines(content@),
            entry_views(entries@) + logical_entries(
                fullline@,
                all.subrange(i as int, all.len() as int),
                mime_type@,
            ) == start + file_entries(content@, mime_type@),
        decreases physical.len() - i,
    {
        let ghost rest = all.subrange(i as int, all.len() as int);
        let ghost pending = fullline@;
        let ghost before = entry_views(entries@);
        proof {
            assert(rest[0] == physical[i as int]@);
            assert(rest.drop_first() == all.subrange(i + 1, all.len() as int));
        }
        let line = &physical[i];
        let mut j: usize = 0;
        while j < line.len()
            invariant
                j <= line.len(),
                fullline@ == pending + line@.subrange(0, j as int),
            decreases line.len() - j,
        {
            fullline.push(line[j]);
            assert(line@.subrange(0, j + 1) == line@.subrange(0, j as int).push(line@[j as int]));
            j += 1;
        }
        assert(line@.subrange(0, j as int) == line@);
        i += 1;
        if ends_unescaped(fullline.as_slice()) {
            fullline.pop();
        } else if fullline.len() > 0 && fullline[0] == '#' {
            fullline = Vec::new();
        } else {
            match parse_fields(fullline.as_slice(), mime_type) {
                Some(entry) => {
                    let ghost tail = logical_entries(
                        Seq::empty(),
                        rest.drop_first(),
                        mime_type@,
                    );
                    entries.push(entry);
                    proof {
                        assert(entry_views(entries@) == before.push(entry@));
                        assert(before.push(entry@) + tail == before + (seq![entry@] + tail));
                    }
                },
                None => {},
            }
            fullline = Vec::new();
        }
    }
    proof {
        assert(all.subrange(i as int, all.len() as int).len() == 0);
        assert(entry_views(entries@) + Seq::<MailcapEntryView>::empty() == entry_views(
            entries@,
        ));
    }
}

/// The entries that the text `content` of one database file holds for the
/// MIME type `mime_type`, in the order of its lines.
pub fn parse_mailcap(content: &str, mime_type: &str) -> (entries: Vec<MailcapEntry>)
    ensures
        entry_views(entries@) == file_entries(content@, mime_type@),
{
    let content_chars = chars_of(content);
    let type_chars = chars_of(mime_type);
    let mut entries: Vec<MailcapEntry> = Vec::new();
    append_file_entries(&mut entries, content_chars.as_slice(), type_chars.as_slice());
    assert(entry_views(Seq::<MailcapEntry>::empty()) + file_entries(content@, mime_type@)
        == file_entries(content@, mime_type@));
    entries
}

/// The entries for the MIME type `mime_type` in the database files
/// `mailcap_files`, each given by its text, or by `None` where it could not
/// be opened. The entries come in the order of the files and of their lines.
/// It is an error only if no file at all could be opened; files that hold
/// nothing for the type give the empty list.
pub fn get_entries(mailcap_files: &[Option<String>], mime_type: &str) -> (found: Result<
    Vec<MailcapEntry>,
    LookupError,
>)
    ensures
        match found {
            Ok(entries) => any_opened(contents(mailcap_files@)) && entry_views(entries@)
                == database_entries(contents(mailcap_files@), mime_type@),
            Err(error) => !any_opened(contents(mailcap_files@)) && error
                == LookupError::DatabaseNotFound,
        },
{
    let type_chars = chars_of(mime_type);
    let ghost files = contents(mailcap_files@);
    let mut file_opened = false;
    let mut entries: Vec<MailcapEntry> = Vec::new();
    let mut i: usize = 0;
    proof {
        assert(files.subrange(0, files.len() as int) == files);
        assert(entry_views(entries@) + database_entries(files, mime_type@) == database_entries(
            files,
            mime_type@,
        ));
    }
    while i < mailcap_files.len()
        invariant
            i <= mailcap_files.len(),
            files == contents(mailcap_files@),
            type_chars@ == mime_type@,
            file_opened == any_opened(files.subrange(0, i as int)),
            entry_views(entries@) + database_entries(
                files.subrange(i as int, files.len() as int),
                mime_type@,
            ) == database_entries(files, mime_type@),
        decreases mailcap_files.len() - i,
    {
        let ghost rest = files.subrange(i as int, files.len() as int);
        let ghost before = entry_views(entries@);
        let ghost seen = files.subrange(0, i as int);
        let ghost seen_next = files.subrange(0, i + 1);
        proof {
            assert(rest.drop_first() == files.subrange(i + 1, files.len() as int));
            assert(rest[0] == files[i as int]);
            assert(seen_next[i as int] == files[i as int]);
            assert forall|k: int| 0 <= k < seen.len() implies seen[k] == seen_next[k] by {}
        }
        match &mailcap_files[i] {
            Some(content) => {
                let content_chars = chars_of(content.as_str());
                append_file_entries(&mut entries, content_chars.as_slice(), type_chars.as_slice());
                file_opened = true;
                proof {
                    let here = file_entries(content@, mime_type@);
                    let tail = database_entries(rest.drop_first(), mime_type@);
                    assert(before + here + tail == before + (here + tail));
                    assert(any_opened(seen_next));
                }
            },
            None => {
                proof {
                    let tail = database_entries(rest.drop_first(), mime_type@);
                    assert(before + (Seq::<MailcapEntryView>::empty() + tail) == before + tail);
                    if any_opened(seen_next) {
                        let k = choose|k: int| 0 <= k < seen_next.len() && (#[trigger] seen_next[k]) is Some;
                        assert(seen[k] is Some);
                    }
                    if any_opened(seen) {
                        let k = choose|k: int| 0 <= k < seen.len() && (#[trigger] seen[k]) is Some;
                        assert(seen_next[k] is Some);
                    }
                }
            },
        }
        i += 1;
    }
    proof {
        assert(files.subrange(0, i as int) == files);
        assert(files.subrange(i as int, files.len() as int).len() == 0);
        assert(entry_views(entries@) + Seq::<MailcapEntryView>::empty() == entry_views(
            entries@,
        ));
    }
    if file_opened {
        Ok(entries)
    } else {
        Err(LookupError::DatabaseNotFound)
    }
}

/// Reading a database text is repeatable: two lists of entries read from the
/// same text for the same MIME type are equal, entry by entry and field by
/// field.
pub proof fn lemma_parse_is_repeatable(
    first: Vec<MailcapEntry>,
    second: Vec<MailcapEntry>,
    content: Seq<char>,
    mime_type: Seq<char>,
)
    requires
        entry_views(first@) == file_entries(content, mime_type),
        entry_views(second@) == file_entries(content, mime_type),
    ensures
        first.len() == second.len(),
        forall|i: int| 0 <= i < first.len() ==> first[i]@ == second[i]@,
{
    assert(entry_views(first@).len() == first.len());
    assert(entry_views(second@).len() == second.len());
    assert forall|i: int| 0 <= i < first.len() implies first[i]@ == second[i]@ by {
        assert(entry_views(first@)[i] == first[i]@);
        assert(entry_views(second@)[i] == second[i]@);
    }
}

/// Continuation: a line written as two physical lines, the first ending in
/// an unescaped backslash, gives the same entries as the two parts written
/// as one line, whatever stands before and after them.
pub proof fn lemma_continuation_joins(
    pending: Seq<char>,
    before: Seq<Seq<char>>,
    line1: Seq<char>,
    line2: Seq<char>,
    after: Seq<Seq<char>>,
    mime_type: Seq<char>,
)
    requires
        is_continued((pending_after(pending, before) + line1).push('\\')),
    ensures
        logical_entries(pending, before + seq![line1.push('\\'), line2] + after, mime_type)
            == logical_entries(pending, before + seq![line1 + line2] + after, mime_type),
    decreases before.len(),
{
    let split = before + seq![line1.push('\\'), line2] + after;
    let joined = before + seq![line1 + line2] + after;
    if before.len() == 0 {
        let full = pending + line1.push('\\');
        assert(split[0] == line1.push('\\'));
        assert(full == (pending + line1).push('\\'));
        assert(full.drop_last() == pending + line1);
        let rest = split.drop_first();
        assert(rest[0] == line2);
        assert(joined[0] == line1 + line2);
        assert((pending + line1) + line2 == pending + (line1 + line2));
        assert(rest.drop_first() == after);
        assert(joined.drop_first() == after);
        assert(logical_entries(pending, split, mime_type) == logical_entries(
            pending + line1,
            rest,
            mime_type,
        ));
    } else {
        let head = before[0];
        let tail = before.drop_first();
        assert(split[0] == head && joined[0] == head);
        assert(split.drop_first() == tail + seq![line1.push('\\'), line2] + after);
        assert(joined.drop_first() == tail + seq![line1 + line2] + after);
        let full = pending + head;
        if is_continued(full) {
            lemma_continuation_joins(full.drop_last(), tail, line1, line2, after, mime_type);
        } else {
            lemma_continuation_joins(Seq::empty(), tail, line1, line2, after, mime_type);
        }
    }
}

/// Continuation in the text of a file: a line written as two, the first
/// ending in an unescaped backslash, gives the same entries as the two parts
/// written as one line. `head` is the text before the line, whole lines of
/// it, and `tail` the text after it. The parts hold no line feed, and an
/// empty second part does not follow a first part that ends in a carriage
/// return, which would then come to stand before the line feed.
pub proof fn lemma_continuation_in_text(
    head: Seq<char>,
    line1: Seq<char>,
    line2: Seq<char>,
    tail: Seq<char>,
    mime_type: Seq<char>,
)
    requires
        head.len() == 0 || head.last() == '\n',
        position(line1, '\n') == line1.len(),
        position(line2, '\n') == line2.len(),
        line2.len() > 0 || line1.len() == 0 || line1.last() != '\r',
        is_continued((pending_after(Seq::empty(), split_lines(head)) + line1).push('\\')),
    ensures
        file_entries(head + line1 + seq!['\\', '\n'] + line2 + seq!['\n'] + tail, mime_type)
            == file_entries(head + line1 + line2 + seq!['\n'] + tail, mime_type),
{
    let before = split_lines(head);
    let after = split_lines(tail);
    let first = line1.push('\\');
    let second = strip_return(line2);
    let split_text = head + line1 + seq!['\\', '\n'] + line2 + seq!['\n'] + tail;
    let joined_text = head + line1 + line2 + seq!['\n'] + tail;

    assert(position(first, '\n') == first.len()) by {
        lemma_position(line1, '\n');
        assert forall|j: int| 0 <= j < first.len() implies first[j] != '\n' by {
            if j < line1.len() {
                assert(first[j] == line1[j]);
            }
        }
        lemma_position_is(first, '\n', first.len() as int);
    }
    assert(strip_return(first) == first);
    let rest = line2 + seq!['\n'] + tail;
    lemma_split_lines_first(line2, tail);
    lemma_split_lines_first(first, rest);
    lemma_split_lines_concat(head, first + seq!['\n'] + rest);
    assert(split_text == head + (first + seq!['\n'] + rest));
    assert(split_lines(split_text) == before + seq![first, second] + after) by {
        assert(before + (seq![first] + (seq![second] + after)) == before + seq![first, second]
            + after);
    }

    let whole = line1 + line2;
    assert(position(whole, '\n') == whole.len()) by {
        lemma_position(line1, '\n');
        lemma_position(line2, '\n');
        assert forall|j: int| 0 <= j < whole.len() implies whole[j] != '\n' by {
            if j < line1.len() {
                assert(whole[j] == line1[j]);
            } else {
                assert(whole[j] == line2[j - line1.len()]);
            }
        }
        lemma_position_is(whole, '\n', whole.len() as int);
    }
    assert(strip_return(whole) == line1 + second) by {
        if line2.len() > 0 {
            assert(whole.last() == line2.last());
            if line2.last() == '\r' {
                assert(whole.drop_last() == line1 + line2.drop_last());
            }
        } else {
            assert(whole == line1);
            assert(line1 + second == line1);
        }
    }
    lemma_split_lines_first(whole, tail);
    lemma_split_lines_concat(head, whole + seq!['\n'] + tail);
    assert(joined_text == head + (whole + seq!['\n'] + tail));
    assert(split_lines(joined_text) == before + seq![line1 + second] + after) by {
        assert(before + (seq![line1 + second] + after) == before + seq![line1 + second] + after);
    }
    lemma_continuation_joins(Seq::empty(), before, line1, second, after, mime_type);
}

} // verus!
