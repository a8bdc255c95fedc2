use koldpress::cli::Format;
use koldpress::db::{bookmarks_for_book_query, bookmarks_query, contents_query};
use koldpress::{Config, ConfigError};

#[test]
fn format_extensions() {
    assert_eq!(Format::Json.extension(), "json");
    assert_eq!(Format::Markdown.extension(), "md");
}

#[test]
fn config_without_db_path_is_invalid() {
    let config = Config { db_path: None };
    assert_eq!(config.validate(), Err(ConfigError::NoDBProvidedError));
    assert_eq!(ConfigError::NoDBProvidedError.message(), "No DB path provided");
}

#[test]
fn config_with_db_path_is_valid() {
    let config = Config { db_path: Some(std::path::PathBuf::from("/tmp/KoboReader.sqlite")) };
    assert_eq!(config.validate(), Ok(()));
}

#[test]
fn bookmark_queries() {
    let all = bookmarks_query();
    assert_eq!(
        all,
        "SELECT ContentID, Text, Hidden IS NOT 'false' AS Hidden, VolumeID, ChapterProgress FROM Bookmark"
    );
    assert_eq!(bookmarks_for_book_query(), format!("{} WHERE VolumeID = ?1", all));
}

#[test]
fn contents_query_selects_every_content_column() {
    assert_eq!(
        contents_query(),
        "SELECT \"ContentID\", \"ContentType\", \"Title\", \"BookTitle\", \"Attribution\", \
         \"MimeType\", \"VolumeIndex\", \"BookID\" FROM \"content\""
    );
}
