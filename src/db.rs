//! The queries that read the raw rows of the content store.
use vstd::prelude::*;

verus! {

/// An identifier as SQLite text: in double quotes.
pub open spec fn quoted(s: Seq<char>) -> Seq<char> {
    seq!['"'] + s + seq!['"']
}

/// The quoted identifiers, separated by `, `.
pub open spec fn quoted_list(names: Seq<Seq<char>>) -> Seq<char>
    decreases names.len(),
{
    if names.len() == 0 {
        Seq::empty()
    } else if names.len() == 1 {
        quoted(names[0])
    } else {
        quoted_list(names.drop_last()) + ", "@ + quoted(names.last())
    }
}

/// The SQLite text of `SELECT <columns> FROM <table>`.
pub open spec fn select_sql(table: Seq<char>, columns: Seq<Seq<char>>) -> Seq<char> {
    "SELECT "@ + quoted_list(columns) + " FROM "@ + quoted(table)
}

/// An identifier that needs no escaping inside double quotes.
pub open spec fn plain_name(s: Seq<char>) -> bool {
    !s.contains('"')
}

/// Relies on sea_query's `Query::select`, `SelectStatement::columns`, `from`
/// and `to_string(SqliteQueryBuilder)`: `SELECT `, the columns each in double
/// quotes and separated by `, `, ` FROM `, and the table in double quotes.
#[verifier::external_body]
fn sqlite_select(table: &'static str, columns: &Vec<&'static str>) -> (r: String)
    requires
        plain_name(table@),
        forall|k: int| 0 <= k < columns@.len() ==> plain_name(#[trigger] columns@[k]@),
    ensures
        r@ == select_sql(table@, columns@.map_values(|c: &'static str| c@)),
{
    let mut query = sea_query::Query::select();
    query.columns(columns.iter().copied()).from(table);
    query.to_string(sea_query::SqliteQueryBuilder)
}

pub const CONTENT_TABLE: &'static str = "content";

pub const CONTENT_ID: &'static str = "ContentID";

pub const CONTENT_TYPE: &'static str = "ContentType";

pub const TITLE: &'static str = "Title";

pub const BOOK_TITLE: &'static str = "BookTitle";

pub const ATTRIBUTION: &'static str = "Attribution";

pub const MIME_TYPE: &'static str = "MimeType";

pub const VOLUME_INDEX: &'static str = "VolumeIndex";

pub const BOOK_ID: &'static str = "BookID";

/// The columns of a content row, in the order `ContentItem` is read from.
pub open spec fn content_columns() -> Seq<Seq<char>> {
    seq![
        CONTENT_ID@,
        CONTENT_TYPE@,
        TITLE@,
        BOOK_TITLE@,
        ATTRIBUTION@,
        MIME_TYPE@,
        VOLUME_INDEX@,
        BOOK_ID@,
    ]
}

/// SQL that reads every content row, with the columns of `content_columns`.
pub fn contents_query() -> (r: String)
    ensures
        r@ == select_sql(CONTENT_TABLE@, content_columns()),
{
    let columns: Vec<&'static str> = vec![
        CONTENT_ID,
        CONTENT_TYPE,
        TITLE,
        BOOK_TITLE,
        ATTRIBUTION,
        MIME_TYPE,
        VOLUME_INDEX,
        BOOK_ID,
    ];
    assert(columns@.map_values(|c: &'static str| c@) =~= content_columns());
    proof {
        reveal_strlit("content");
        reveal_strlit("ContentID");
        reveal_strlit("ContentType");
        reveal_strlit("Title");
        reveal_strlit("BookTitle");
        reveal_strlit("Attribution");
        reveal_strlit("MimeType");
        reveal_strlit("VolumeIndex");
        reveal_strlit("BookID");
        assert forall|k: int| 0 <= k < columns@.len() implies plain_name(#[trigger] columns@[k]@) by {
            assert(columns@[k]@ == content_columns()[k]);
        }
    }
    sqlite_select(CONTENT_TABLE, &columns)
}

/// Every highlight row; `Hidden` is read as a boolean, and only a row
/// marked `'false'` counts as visible.
pub const BOOKMARKS_SQL: &'static str =
    "SELECT ContentID, Text, Hidden IS NOT 'false' AS Hidden, VolumeID, ChapterProgress FROM Bookmark";

/// Restricts the highlight rows to the book bound to the first parameter.
pub const BOOK_FILTER_SQL: &'static str = " WHERE VolumeID = ?1";

/// SQL that reads every highlight row.
pub fn bookmarks_query() -> (r: String)
    ensures
        r@ == BOOKMARKS_SQL@,
{
    BOOKMARKS_SQL.to_owned()
}

/// SQL that reads the highlight rows of the book whose content id is bound
/// to its first parameter.
pub fn bookmarks_for_book_query() -> (r: String)
    ensures
        r@ == BOOKMARKS_SQL@ + BOOK_FILTER_SQL@,
{
    let mut sql = BOOKMARKS_SQL.to_owned();
    sql.append(BOOK_FILTER_SQL);
    sql
}

} // verus!
