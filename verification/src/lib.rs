//! Which command handles a file? The answer is looked up in mailcap files:
//! an ordered database that maps MIME types to command templates.
//!
//! - [`config`]: the context of one lookup, read from a command line.
//! - [`mimetype`]: the MIME type of a file, where the caller names none.
//! - [`mailcap`]: the database, and the entries that it holds for a type.
//! - [`placeholder`]: from a command template to a command line.
//! - [`quoting`]: why a file name cannot break out of its quotes.
//! - [`resolve`]: which entry decides, step by step.
//! - [`pattern`], [`text`], [`error`]: regular expressions, character
//!   sequences and the errors of a lookup.
//!
//! The library reads no file and runs no command. Its caller hands it the
//! text of the files and tells it how each test ended.

pub mod config;
pub mod error;
pub mod mailcap;
pub mod mimetype;
pub mod pattern;
pub mod placeholder;
pub mod quoting;
pub mod resolve;
pub mod text;
