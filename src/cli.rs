//! The command-line surface, as plain data.
use vstd::prelude::*;
use std::path::PathBuf;

verus! {

#[verifier::external_type_specification]
#[verifier::external_body]
pub struct ExPathBuf(PathBuf);

#[derive(Debug)]
pub struct Cli {
    /// Path to the Kobo sqlite db.
    pub db_path: Option<PathBuf>,
    /// How many times the verbosity flag was given.
    pub verbose: u8,
    pub command: Commands,
}

#[derive(Debug)]
pub enum Commands {
    Books(BooksArgs),
    Bookmarks(BookmarkArgs),
}

#[derive(Debug)]
pub struct BooksArgs {
    pub command: BookCommands,
}

#[derive(Debug, Clone, Copy, PartialEq, Eq, Structural)]
pub enum BookCommands {
    List,
}

#[derive(Debug)]
pub struct BookmarkArgs {
    pub command: BookmarkCommands,
}

#[derive(Debug)]
pub enum BookmarkCommands {
    Extract(ExtractArgs),
}

#[derive(Debug)]
pub struct ExtractArgs {
    /// Extract the highlights of every book rather than of one chosen book.
    pub all: bool,
    pub format: Format,
    /// Output directory; standard output when absent.
    pub output: Option<PathBuf>,
}

/// Output format of extracted highlights.
#[derive(Clone, Copy, Debug, PartialEq, Eq, PartialOrd, Ord, Structural)]
pub enum Format {
    Json,
    Markdown,
}

pub open spec fn format_extension(f: Format) -> Seq<char> {
    match f {
        Format::Json => "json"@,
        Format::Markdown => "md"@,
    }
}

impl Format {
    /// File name extension of the format.
    pub fn extension(&self) -> (r: String)
        ensures
            r@ == format_extension(*self),
    {
        match self {
            Format::Json => "json".to_owned(),
            Format::Markdown => "md".to_owned(),
        }
    }
}

} // verus!
