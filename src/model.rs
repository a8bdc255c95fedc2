//! The records read from the content store and the shapes handed to callers.
use vstd::prelude::*;

verus! {

/// What a content row stands for, from the store's content type code.
#[derive(Clone, Copy, Debug, PartialEq, Eq, Structural)]
pub enum ContentKind {
    Book,
    HighlightableUnit,
    ChapterTitle,
    Other,
}

/// Content type code of a top-level book.
pub const BOOK_TYPE_CODE: i64 = 6;

/// Content type code of a unit of text that highlights are made in.
pub const UNIT_TYPE_CODE: i64 = 9;

/// Content type code of a table-of-contents entry.
pub const CHAPTER_TITLE_TYPE_CODE: i64 = 899;

pub open spec fn kind_of_code(code: i64) -> ContentKind {
    if code == BOOK_TYPE_CODE {
        ContentKind::Book
    } else if code == UNIT_TYPE_CODE {
        ContentKind::HighlightableUnit
    } else if code == CHAPTER_TITLE_TYPE_CODE {
        ContentKind::ChapterTitle
    } else {
        ContentKind::Other
    }
}

impl ContentKind {
    pub fn from_type_code(code: i64) -> (r: ContentKind)
        ensures
            r == kind_of_code(code),
    {
        if code == BOOK_TYPE_CODE {
            ContentKind::Book
        } else if code == UNIT_TYPE_CODE {
            ContentKind::HighlightableUnit
        } else if code == CHAPTER_TITLE_TYPE_CODE {
            ContentKind::ChapterTitle
        } else {
            ContentKind::Other
        }
    }
}

/// One row of the content table.
#[derive(Debug)]
pub struct ContentItem {
    pub content_id: String,
    pub kind: ContentKind,
    pub title: String,
    /// Title of the owning book; absent on a top-level book row.
    pub book_title: Option<String>,
    pub attribution: String,
    pub mime_type: String,
    /// Position of the item in the reading order of its book.
    pub volume_index: i64,
    /// Content id of the owning book.
    pub book_id: String,
}

/// One row of the highlight table.
#[derive(Debug)]
pub struct Highlight {
    /// The unit of text the highlight was made in; not unique per highlight.
    pub content_id: String,
    pub text: Option<String>,
    pub hidden: bool,
    /// Content id of the owning book.
    pub volume_id: String,
    /// Position within the chapter, as an integer with the same order.
    pub chapter_progress: i64,
}

#[derive(Debug)]
pub struct Book {
    pub title: String,
    pub author: String,
    pub content_id: String,
}

/// A highlight joined with the title of the chapter it was resolved to.
#[derive(Debug)]
pub struct Bookmark {
    pub content_id: String,
    /// The chapter title
    pub chapter_title: Option<String>,
    pub text: String,
}

#[derive(Debug)]
pub struct Chapter {
    pub title: String,
    pub bookmarks: Vec<Bookmark>,
    /// Nested chapters; kept empty, the hierarchy is two levels deep.
    pub children: Vec<Chapter>,
}

pub struct BookView {
    pub title: Seq<char>,
    pub author: Seq<char>,
    pub content_id: Seq<char>,
}

pub struct BookmarkView {
    pub content_id: Seq<char>,
    pub chapter_title: Option<Seq<char>>,
    pub text: Seq<char>,
}

pub struct ChapterView {
    pub title: Seq<char>,
    pub bookmarks: Seq<BookmarkView>,
}

pub open spec fn opt_chars(o: Option<String>) -> Option<Seq<char>> {
    match o {
        Some(s) => Some(s@),
        None => None,
    }
}

impl View for Book {
    type V = BookView;

    open spec fn view(&self) -> BookView {
        BookView { title: self.title@, author: self.author@, content_id: self.content_id@ }
    }
}

impl View for Bookmark {
    type V = BookmarkView;

    open spec fn view(&self) -> BookmarkView {
        BookmarkView {
            content_id: self.content_id@,
            chapter_title: opt_chars(self.chapter_title),
            text: self.text@,
        }
    }
}

impl View for Chapter {
    type V = ChapterView;

    open spec fn view(&self) -> ChapterView {
        ChapterView { title: self.title@, bookmarks: self.bookmarks@.map_values(|b: Bookmark| b@) }
    }
}

/// A chapter with no nested chapters below it.
pub open spec fn is_flat(c: Chapter) -> bool {
    c.children@.len() == 0
}

pub fn clone_opt_string(o: &Option<String>) -> (r: Option<String>)
    ensures
        opt_chars(r) == opt_chars(*o),
{
    match o {
        Some(s) => Some(s.clone()),
        None => None,
    }
}

} // verus!
