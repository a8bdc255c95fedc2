//! The facade over one snapshot of the content store: the books, and their
//! highlights grouped into chapters.
use vstd::prelude::*;
use crate::group::{
    book_runs, flatten_runs, lemma_book_runs_flatten, lemma_flatten_member, lemma_flatten_runs_member,
    lemma_group_runs_partition, all_flat, chapter_views, clone_bookmark, entry_views, group_by_book, group_chapters, group_runs,
    library_tree, tree_views,
};
use crate::model::{Book, BookView, Bookmark, Chapter, ContentItem, Highlight, BookmarkView};
use crate::select::{is_eligible, is_selected, is_export_order, export_order, export_stream, resolved_bookmark, select_bookmarks, select_indexed};

verus! {

pub const KOBO_EPUB_MIME_TYPE: &'static str = "application/x-kobo-epub+zip";

pub const EPUB_MIME_TYPE: &'static str = "application/epub+zip";

/// A top-level row (no owning book) of an importable e-book mime type.
pub open spec fn is_book_row(c: ContentItem) -> bool {
    c.book_title is None && (c.mime_type@ == KOBO_EPUB_MIME_TYPE@ || c.mime_type@ == EPUB_MIME_TYPE@)
}

pub open spec fn book_of_row(c: ContentItem) -> BookView {
    BookView { title: c.title@, author: c.attribution@, content_id: c.content_id@ }
}

/// The books of the store, in store order.
pub open spec fn books_of(s: Seq<ContentItem>) -> Seq<BookView>
    decreases s.len(),
{
    if s.len() == 0 {
        Seq::empty()
    } else if is_book_row(s.last()) {
        books_of(s.drop_last()).push(book_of_row(s.last()))
    } else {
        books_of(s.drop_last())
    }
}

/// The first book with content id `id`.
pub open spec fn find_book(books: Seq<BookView>, id: Seq<char>) -> Option<BookView>
    decreases books.len(),
{
    if books.len() == 0 {
        None
    } else if books[0].content_id == id {
        Some(books[0])
    } else {
        find_book(books.drop_first(), id)
    }
}

/// The title of the book with content id `id`; empty when there is none.
pub open spec fn owner_title(contents: Seq<ContentItem>, id: Seq<char>) -> Seq<char> {
    match find_book(books_of(contents), id) {
        Some(b) => b.title,
        None => Seq::empty(),
    }
}

/// The whole-library stream: each exported highlight with its book's title.
pub open spec fn library_entries(contents: Seq<ContentItem>, hs: Seq<Highlight>) -> Seq<(Seq<char>, BookmarkView)> {
    export_order(contents, hs, None).map_values(
        |i: int| (owner_title(contents, hs[i].volume_id@), resolved_bookmark(contents, hs[i])),
    )
}

/// Every bookmark in the whole-library tree comes from a visible highlight
/// with non-empty text, and is that highlight joined with its chapter title.
pub proof fn lemma_tree_holds_only_eligible(contents: Seq<ContentItem>, hs: Seq<Highlight>, r: int, c: int, j: int)
    requires
        0 <= r < library_tree(library_entries(contents, hs)).len(),
        0 <= c < library_tree(library_entries(contents, hs))[r].1.len(),
        0 <= j < library_tree(library_entries(contents, hs))[r].1[c].bookmarks.len(),
    ensures
        exists|i: int|
            0 <= i < hs.len() && is_eligible(#[trigger] hs[i]) && library_tree(library_entries(contents, hs))[r].1[c].bookmarks[j]
                == resolved_bookmark(contents, hs[i]),
{
    let s = library_entries(contents, hs);
    let runs = book_runs(s);
    let chapters = group_runs(runs[r].1);
    assert(library_tree(s)[r].1 == chapters);
    let b = chapters[c].bookmarks[j];
    lemma_group_runs_partition(runs[r].1);
    lemma_flatten_member(chapters, c, j);
    let x = choose|x: int| 0 <= x < runs[r].1.len() && runs[r].1[x] == b;
    lemma_flatten_runs_member(runs, r, x);
    lemma_book_runs_flatten(s);
    let k = choose|k: int| 0 <= k < flatten_runs(runs).len() && flatten_runs(runs)[k] == b;
    let ord = export_order(contents, hs, None);
    assert(s.map_values(|e: (Seq<char>, BookmarkView)| e.1)[k] == s[k].1);
    if !exists|o: Seq<int>| is_export_order(contents, hs, None, o) {
        assert(ord.len() == 0);
    }
    assert(is_export_order(contents, hs, None, ord));
    assert(0 <= ord[k] < hs.len() && is_selected(hs[ord[k]], None));
    assert(b == resolved_bookmark(contents, hs[ord[k]]));
}

pub open spec fn book_views(s: Seq<Book>) -> Seq<BookView> {
    s.map_values(|b: Book| b@)
}

pub open spec fn opt_book(o: Option<Book>) -> Option<BookView> {
    match o {
        Some(b) => Some(b@),
        None => None,
    }
}

/// One snapshot of the content store: its content rows and highlight rows.
pub struct Library {
    pub contents: Vec<ContentItem>,
    pub highlights: Vec<Highlight>,
}

fn is_book_content(c: &ContentItem) -> (r: bool)
    ensures
        r == is_book_row(*c),
{
    if c.book_title.is_some() {
        return false;
    }
    let kobo = KOBO_EPUB_MIME_TYPE.to_owned();
    let epub = EPUB_MIME_TYPE.to_owned();
    c.mime_type == kobo || c.mime_type == epub
}

fn clone_book(b: &Book) -> (r: Book)
    ensures
        r@ == b@,
{
    Book { title: b.title.clone(), author: b.author.clone(), content_id: b.content_id.clone() }
}

/// The first of `books` with content id `id`.
fn find_book_index(books: &Vec<Book>, id: &String) -> (r: Option<usize>)
    ensures
        match r {
            Some(i) => i < books@.len() && find_book(book_views(books@), id@) == Some(books@[i as int]@),
            None => find_book(book_views(books@), id@) is None,
        },
{
    let ghost v = book_views(books@);
    let mut k: usize = 0;
    assert(v.skip(0) =~= v);
    while k < books.len()
        invariant
            v == book_views(books@),
            k <= books@.len(),
            find_book(v, id@) == find_book(v.skip(k as int), id@),
        decreases books.len() - k,
    {
        assert(v.skip(k as int)[0] == books@[k as int]@);
        if books[k].content_id == *id {
            return Some(k);
        }
        assert(v.skip(k as int).drop_first() =~= v.skip(k + 1));
        k = k + 1;
    }
    None
}

impl Library {
    pub fn new(contents: Vec<ContentItem>, highlights: Vec<Highlight>) -> (r: Library)
        ensures
            r.contents@ == contents@,
            r.highlights@ == highlights@,
    {
        Library { contents, highlights }
    }

    /// The importable books, in store order.
    pub fn get_books(&self) -> (r: Vec<Book>)
        ensures
            book_views(r@) == books_of(self.contents@),
    {
        let mut books: Vec<Book> = Vec::new();
        let mut k: usize = 0;
        while k < self.contents.len()
            invariant
                k <= self.contents@.len(),
                book_views(books@) == books_of(self.contents@.take(k as int)),
            decreases self.contents.len() - k,
        {
            let ghost before = books@;
            assert(self.contents@.take(k + 1).drop_last() =~= self.contents@.take(k as int));
            let c = &self.contents[k];
            if is_book_content(c) {
                books.push(Book {
                    title: c.title.clone(),
                    author: c.attribution.clone(),
                    content_id: c.content_id.clone(),
                });
                assert(book_views(books@) =~= book_views(before).push(book_of_row(*c)));
            }
            k = k + 1;
        }
        assert(self.contents@.take(self.contents@.len() as int) =~= self.contents@);
        books
    }

    /// The first importable book with content id `content_id`; `None` when
    /// there is none.
    pub fn get_book(&self, content_id: String) -> (r: Option<Book>)
        ensures
            opt_book(r) == find_book(books_of(self.contents@), content_id@),
    {
        let books = self.get_books();
        match find_book_index(&books, &content_id) {
            Some(i) => Some(clone_book(&books[i])),
            None => None,
        }
    }

    /// The highlights of every book, as contiguous runs of one book (by
    /// title), each grouped into chapters.
    pub fn get_bookmarks(&self) -> (r: Vec<(String, Vec<Chapter>)>)
        ensures
            tree_views(r@) == library_tree(library_entries(self.contents@, self.highlights@)),
            forall|i: int| 0 <= i < r@.len() ==> all_flat(#[trigger] r@[i].1@),
    {
        let (rows, bookmarks) = select_indexed(&self.contents, &self.highlights, None);
        let books = self.get_books();
        let ghost order = export_order(self.contents@, self.highlights@, None);
        let ghost want = library_entries(self.contents@, self.highlights@);
        assert(bookmarks@.len() == rows@.len()) by {
            assert(bookmarks@.map_values(|b: Bookmark| b@).len() == order.len());
        }
        let mut entries: Vec<(String, Bookmark)> = Vec::new();
        let mut k: usize = 0;
        while k < rows.len()
            invariant
                rows@.map_values(|i: usize| i as int) == order,
                order == export_order(self.contents@, self.highlights@, None),
                want.len() == order.len(),
                is_export_order(self.contents@, self.highlights@, None, order),
                bookmarks@.map_values(|b: Bookmark| b@) == export_stream(self.contents@, self.highlights@, None),
                bookmarks@.len() == rows@.len(),
                book_views(books@) == books_of(self.contents@),
                want == library_entries(self.contents@, self.highlights@),
                k <= rows@.len(),
                entries@.len() == k,
                forall|j: int| 0 <= j < k ==> #[trigger] entry_views(entries@)[j] == want[j],
            decreases rows.len() - k,
        {
            let row = rows[k];
            assert(order.len() == rows@.len());
            assert(order[k as int] == row as int);
            assert(order == export_order(self.contents@, self.highlights@, None));
            assert(bookmarks@.map_values(|b: Bookmark| b@)[k as int] == bookmarks@[k as int]@);
            assert(row < self.highlights@.len());
            let title = match find_book_index(&books, &self.highlights[row].volume_id) {
                Some(i) => books[i].title.clone(),
                None => String::new(),
            };
            let b = clone_bookmark(&bookmarks[k]);
            assert(export_stream(self.contents@, self.highlights@, None)[k as int] == resolved_bookmark(
                self.contents@,
                self.highlights@[row as int],
            ));
            assert(title@ == owner_title(self.contents@, self.highlights@[row as int].volume_id@));
            assert(want[k as int] == (title@, b@));
            let ghost before = entries@;
            entries.push((title, b));
            assert forall|j: int| 0 <= j < k + 1 implies #[trigger] entry_views(entries@)[j] == want[j] by {
                if j < k {
                    assert(entries@[j] == before[j]);
                    assert(entry_views(before)[j] == want[j]);
                }
            }
            k = k + 1;
        }
        assert(entry_views(entries@) =~= want);
        group_by_book(entries)
    }

    /// The highlights of `book`, grouped into chapters.
    pub fn get_bookmarks_for_book(&self, book: &Book) -> (r: Vec<Chapter>)
        ensures
            chapter_views(r@) == group_runs(export_stream(self.contents@, self.highlights@, Some(book.content_id@))),
            all_flat(r@),
    {
        let bookmarks = select_bookmarks(&self.contents, &self.highlights, Some(&book.content_id));
        group_chapters(&bookmarks)
    }
}

} // verus!
