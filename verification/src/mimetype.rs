//! The MIME type of a file, from its name and the mime.types files, or from
//! what the `file` command says of its content.

use vstd::prelude::*;
use crate::error::LookupError;
use crate::text::after_last;
use crate::text::any_opened;
use crate::text::chars_of;
use crate::text::contents;
use crate::text::find;
use crate::text::last_part;
use crate::text::lines;
use crate::text::lowercase;
use crate::text::occurrences;
use crate::text::occurs_once;
use crate::text::position;
use crate::text::rows;
use crate::text::same_chars;
use crate::text::split_lines;
use crate::text::split_words;
use crate::text::string_of;
use crate::text::words;

verus! {

/// The type of a file of which nothing else is known.
pub open spec fn unknown_type() -> Seq<char> {
    "application/octet-stream"@
}

/// The type that one line of a mime.types file gives to a file name
/// extension: the first word of the line, where the line is no comment, that
/// word holds exactly one slash, and the extension is one of the words after
/// it.
pub open spec fn line_type(line: Seq<char>, extension: Seq<char>) -> Option<Seq<char>> {
    let items = words(line);
    if line.len() > 0 && line[0] == '#' {
        None
    } else if items.len() > 0 && occurrences(items[0], '/') == 1 && (exists|k: int|
        1 <= k < items.len() && #[trigger] items[k] == extension) {
        Some(items[0])
    } else {
        None
    }
}

/// The type that the first line of `lines` with a type for the extension
/// gives to it.
pub open spec fn first_type(lines: Seq<Seq<char>>, extension: Seq<char>) -> Option<Seq<char>>
    decreases lines.len(),
{
    if lines.len() == 0 {
        None
    } else {
        match line_type(lines[0], extension) {
            Some(mime) => Some(mime),
            None => first_type(lines.drop_first(), extension),
        }
    }
}

/// The type that the first of `files` with a type for the extension gives
/// to it. A file that could not be opened gives none.
pub open spec fn listed_type(files: Seq<Option<Seq<char>>>, extension: Seq<char>) -> Option<
    Seq<char>,
>
    decreases files.len(),
{
    if files.len() == 0 {
        None
    } else {
        let here = match files[0] {
            Some(content) => first_type(split_lines(content), extension),
            None => None,
        };
        match here {
            Some(mime) => Some(mime),
            None => listed_type(files.drop_first(), extension),
        }
    }
}

/// The type of a file by its name. A name without a dot has the unknown
/// type. Otherwise the extension is what follows the last dot, in lower
/// case: its type is the one that the mime.types files list for it, or the
/// unknown type where they list none. It is an error if the type is not
/// listed and no file could be opened.
pub open spec fn type_by_extension(files: Seq<Option<Seq<char>>>, filename: Seq<char>) -> Result<
    Seq<char>,
    LookupError,
> {
    if position(filename, '.') >= filename.len() {
        Ok(unknown_type())
    } else {
        match listed_type(files, lowercase(after_last(filename, '.'))) {
            Some(mime) => Ok(mime),
            None => if any_opened(files) {
                Ok(unknown_type())
            } else {
                Err(LookupError::MimeTypesNotFound)
            },
        }
    }
}

/// The type that the line `line` of a mime.types file gives to `extension`.
pub fn type_in_line(line: &[char], extension: &[char]) -> (found: Option<Vec<char>>)
    ensures
        match found {
            Some(mime) => line_type(line@, extension@) == Some(mime@),
            None => line_type(line@, extension@) is None,
        },
{
    if line.len() > 0 && line[0] == '#' {
        return None;
    }
    let mut items = split_words(line);
    let ghost all = rows(items@);
    assert(all.len() == items.len());
    if items.len() == 0 {
        return None;
    }
    assert(all[0] == items[0]@);
    if !occurs_once(items[0].as_slice(), '/') {
        return None;
    }
    let mut k: usize = 1;
    let mut listed = false;
    while k < items.len() && !listed
        invariant
            1 <= k <= items.len(),
            all == rows(items@),
            !listed ==> forall|j: int| 1 <= j < k ==> #[trigger] all[j] != extension@,
            listed ==> exists|j: int| 1 <= j < all.len() && #[trigger] all[j] == extension@,
        decreases items.len() - k + (if listed { 0int } else { 1int }),
    {
        assert(all[k as int] == items[k as int]@);
        if same_chars(items[k].as_slice(), extension) {
            listed = true;
        } else {
            k += 1;
        }
    }
    if listed {
        let mime = items.swap_remove(0);
        Some(mime)
    } else {
        None
    }
}

/// The type that the text `content` of a mime.types file gives to
/// `extension`.
pub fn type_in_file(content: &[char], extension: &[char]) -> (found: Option<Vec<char>>)
    ensures
        match found {
            Some(mime) => first_type(split_lines(content@), extension@) == Some(mime@),
            None => first_type(split_lines(content@), extension@) is None,
        },
{
    let physical = lines(content);
    let ghost all = rows(physical@);
    let mut i: usize = 0;
    proof {
        assert(all.subrange(0, all.len() as int) == all);
    }
    while i < physical.len()
        invariant
            i <= physical.len(),
            all == rows(physical@),
            all == split_lines(content@),
            first_type(all.subrange(i as int, all.len() as int), extension@) == first_type(
                all,
                extension@,
            ),
        decreases physical.len() - i,
    {
        let ghost rest = all.subrange(i as int, all.len() as int);
        assert(rest[0] == physical[i as int]@);
        assert(rest.drop_first() == all.subrange(i + 1, all.len() as int));
        match type_in_line(physical[i].as_slice(), extension) {
            Some(mime) => {
                assert(first_type(rest, extension@) == Some(mime@));
                return Some(mime);
            },
            None => {},
        }
        i += 1;
    }
    assert(all.subrange(i as int, all.len() as int).len() == 0);
    None
}

/// The MIME type of the file named `filename`, by the extension of the name
/// and the mime.types files `mime_files`, each given by its text, or by
/// `None` where it could not be opened.
pub fn get_type_by_extension(mime_files: &[Option<String>], filename: &str) -> (found: Result<
    String,
    LookupError,
>)
    ensures
        match found {
            Ok(mime) => type_by_extension(contents(mime_files@), filename@) == Ok::<
                Seq<char>,
                LookupError,
            >(mime@),
            Err(error) => type_by_extension(contents(mime_files@), filename@) == Err::<
                Seq<char>,
                LookupError,
            >(error),
        },
{
    let name = chars_of(filename);
    let dot = find(name.as_slice(), 0, '.');
    proof {
        assert(name@.subrange(0, name.len() as int) == name@);
    }
    if dot >= name.len() {
        return Ok("application/octet-stream".to_owned());
    }
    let ending = last_part(name.as_slice(), '.');
    let lower = string_of(ending.as_slice()).as_str().to_lowercase();
    let extension = chars_of(lower.as_str());
    let ghost files = contents(mime_files@);
    let mut file_opened = false;
    let mut i: usize = 0;
    proof {
        assert(files.subrange(0, files.len() as int) == files);
    }
    while i < mime_files.len()
        invariant
            i <= mime_files.len(),
            files == contents(mime_files@),
            position(filename@, '.') < filename@.len(),
            extension@ == lowercase(after_last(filename@, '.')),
            file_opened == any_opened(files.subrange(0, i as int)),
            listed_type(files.subrange(i as int, files.len() as int), extension@) == listed_type(
                files,
                extension@,
            ),
        decreases mime_files.len() - i,
    {
        let ghost rest = files.subrange(i as int, files.len() as int);
        let ghost seen = files.subrange(0, i as int);
        let ghost seen_next = files.subrange(0, i + 1);
        proof {
            assert(rest.drop_first() == files.subrange(i + 1, files.len() as int));
            assert(rest[0] == files[i as int]);
            assert(seen_next[i as int] == files[i as int]);
            assert forall|k: int| 0 <= k < seen.len() implies seen[k] == seen_next[k] by {}
        }
        match &mime_files[i] {
            Some(content) => {
                let content_chars = chars_of(content.as_str());
                file_opened = true;
                assert(any_opened(seen_next));
                match type_in_file(content_chars.as_slice(), extension.as_slice()) {
                    Some(mime) => {
                        assert(listed_type(rest, extension@) == Some(mime@));
                        return Ok(string_of(mime.as_slice()));
                    },
                    None => {},
                }
            },
            None => {
                proof {
                    if any_opened(seen_next) {
                        let k = choose|k: int|
                            0 <= k < seen_next.len() && (#[trigger] seen_next[k]) is Some;
                        assert(seen[k] is Some);
                    }
                    if any_opened(seen) {
                        let k = choose|k: int| 0 <= k < seen.len() && (#[trigger] seen[k]) is Some;
                        assert(seen_next[k] is Some);
                    }
                }
            },
        }
        i += 1;
    }
    proof {
        assert(files.subrange(0, i as int) == files);
        assert(files.subrange(i as int, files.len() as int).len() == 0);
    }
    if file_opened {
        Ok("application/octet-stream".to_owned())
    } else {
        Err(LookupError::MimeTypesNotFound)
    }
}

/// What running the `file` command on a file gave.
#[derive(Debug)]
pub enum FileOutput {
    /// The command could not be run, or it reported failure.
    Failed,
    /// The command succeeded and printed something that is not text.
    NotText,
    /// The command succeeded and printed this text.
    Text(String),
}

/// The type of a file by what the `file` command printed: the first line of
/// the text, or the unknown type where it printed no line or no text. It is
/// an error if the command failed.
pub open spec fn type_by_magic(output: FileOutput) -> Result<Seq<char>, LookupError> {
    match output {
        FileOutput::Failed => Err(LookupError::FileCommandFailed),
        FileOutput::NotText => Ok(unknown_type()),
        FileOutput::Text(text) => if split_lines(text@).len() > 0 {
            Ok(split_lines(text@)[0])
        } else {
            Ok(unknown_type())
        },
    }
}

/// The MIME type of a file by what the `file` command said of it.
pub fn get_type_by_magic(output: &FileOutput) -> (found: Result<String, LookupError>)
    ensures
        match found {
            Ok(mime) => type_by_magic(*output) == Ok::<Seq<char>, LookupError>(mime@),
            Err(error) => type_by_magic(*output) == Err::<Seq<char>, LookupError>(error),
        },
{
    match output {
        FileOutput::Failed => Err(LookupError::FileCommandFailed),
        FileOutput::NotText => Ok("application/octet-stream".to_owned()),
        FileOutput::Text(text) => {
            let content = chars_of(text.as_str());
            let physical = lines(content.as_slice());
            assert(rows(physical@).len() == physical.len());
            if physical.len() > 0 {
                assert(rows(physical@)[0] == physical[0]@);
                Ok(string_of(physical[0].as_slice()))
            } else {
                Ok("application/octet-stream".to_owned())
            }
        },
    }
}

} // verus!
