use run_mailcap::error::LookupError;
use run_mailcap::mimetype::get_type_by_extension;
use run_mailcap::mimetype::get_type_by_magic;
use run_mailcap::mimetype::FileOutput;

const MIME_TYPES: &str = "# MIME type\t\t\tExtensions\n\
application/pdf\t\t\tpdf\n\
text/plain\t\t\t\ttxt asc text pot\n\
video/mp4\t\t\t\tmp4 mpg4\n\
application/x-empty\n";

fn one_file(content: &str) -> Vec<Option<String>> {
    vec![Some(String::from(content))]
}

#[test]
fn test_mime_types() {
    let files = one_file(MIME_TYPES);

    assert_eq!(get_type_by_extension(&files, "test.mp4").unwrap(), "video/mp4");
    assert_eq!(get_type_by_extension(&files, "test.MP4").unwrap(), "video/mp4");
    assert_eq!(get_type_by_extension(&files, "test.txt").unwrap(), "text/plain");
    assert_eq!(get_type_by_extension(&files, "test").unwrap(), "application/octet-stream");
    assert_eq!(get_type_by_extension(&files, "test.html").unwrap(), "application/octet-stream");
}

#[test]
fn test_mime_types_nonexistant_file() {
    let files: Vec<Option<String>> = vec![None];

    assert_eq!(
        get_type_by_extension(&files, "test.txt").unwrap_err(),
        LookupError::MimeTypesNotFound
    );
    assert_eq!(LookupError::MimeTypesNotFound.message(), "No usable mime.types file found");
}

#[test]
fn name_without_dot_needs_no_file() {
    let files: Vec<Option<String>> = vec![None];
    assert_eq!(get_type_by_extension(&files, "README").unwrap(), "application/octet-stream");
    assert_eq!(get_type_by_extension(&[], "README").unwrap(), "application/octet-stream");
}

#[test]
fn extension_is_what_follows_the_last_dot() {
    let files = one_file(MIME_TYPES);
    assert_eq!(get_type_by_extension(&files, "a.txt.pdf").unwrap(), "application/pdf");
    assert_eq!(get_type_by_extension(&files, "dir.d/a.PoT").unwrap(), "text/plain");
    assert_eq!(get_type_by_extension(&files, "a.").unwrap(), "application/octet-stream");
}

#[test]
fn first_listing_wins() {
    let files = vec![
        None,
        Some(String::from("text/x-one abc\n")),
        Some(String::from("text/x-two abc def\n")),
    ];
    assert_eq!(get_type_by_extension(&files, "f.abc").unwrap(), "text/x-one");
    assert_eq!(get_type_by_extension(&files, "f.def").unwrap(), "text/x-two");
}

#[test]
fn comments_and_odd_lines_list_nothing() {
    let files = one_file("#text/plain txt\nplain txt\na/b/c txt\n  text/x-late\u{a0}other  txt  \n");
    assert_eq!(get_type_by_extension(&files, "f.txt").unwrap(), "text/x-late");
    assert_eq!(get_type_by_extension(&files, "f.other").unwrap(), "text/x-late");
}

#[test]
fn the_type_itself_is_no_extension() {
    let files = one_file("text/plain txt\n");
    assert_eq!(get_type_by_extension(&files, "f.text/plain").unwrap(), "application/octet-stream");
}

#[test]
fn magic_takes_the_first_line() {
    let output = FileOutput::Text(String::from("text/x-shellscript\nmore\n"));
    assert_eq!(get_type_by_magic(&output).unwrap(), "text/x-shellscript");
    let output = FileOutput::Text(String::from("image/png\r\n"));
    assert_eq!(get_type_by_magic(&output).unwrap(), "image/png");
    let output = FileOutput::Text(String::from("\nimage/png\n"));
    assert_eq!(get_type_by_magic(&output).unwrap(), "");
}

#[test]
fn magic_without_text_is_unknown() {
    assert_eq!(get_type_by_magic(&FileOutput::Text(String::new())).unwrap(), "application/octet-stream");
    assert_eq!(get_type_by_magic(&FileOutput::NotText).unwrap(), "application/octet-stream");
}

#[test]
fn magic_failure_is_an_error() {
    assert_eq!(get_type_by_magic(&FileOutput::Failed).unwrap_err(), LookupError::FileCommandFailed);
    assert_eq!(LookupError::FileCommandFailed.message(), "Error executing file command");
}
