use koldpress::select::select_bookmarks;
use koldpress::{Book, Chapter, ContentItem, ContentKind, Highlight, Library};

fn content(id: &str, kind: ContentKind, title: &str, volume_index: i64) -> ContentItem {
    ContentItem {
        content_id: id.to_string(),
        kind,
        title: title.to_string(),
        book_title: Some("Book".to_string()),
        attribution: String::new(),
        mime_type: String::new(),
        volume_index,
        book_id: "b".to_string(),
    }
}

fn book_row(id: &str, title: &str, author: &str, mime: &str) -> ContentItem {
    ContentItem {
        content_id: id.to_string(),
        kind: ContentKind::Book,
        title: title.to_string(),
        book_title: None,
        attribution: author.to_string(),
        mime_type: mime.to_string(),
        volume_index: 0,
        book_id: String::new(),
    }
}

fn highlight(id: &str, text: Option<&str>, hidden: bool, book: &str, progress: i64) -> Highlight {
    Highlight {
        content_id: id.to_string(),
        text: text.map(|t| t.to_string()),
        hidden,
        volume_id: book.to_string(),
        chapter_progress: progress,
    }
}

fn in_book(mut c: ContentItem, book: &str) -> ContentItem {
    c.book_id = book.to_string();
    c
}

fn the_book(id: &str) -> Book {
    Book { title: String::new(), author: String::new(), content_id: id.to_string() }
}

fn shape(chapters: &[Chapter]) -> Vec<(String, Vec<String>)> {
    chapters
        .iter()
        .map(|c| (c.title.clone(), c.bookmarks.iter().map(|b| b.text.clone()).collect()))
        .collect()
}

fn owned(items: &[(&str, &[&str])]) -> Vec<(String, Vec<String>)> {
    items
        .iter()
        .map(|(t, xs)| (t.to_string(), xs.iter().map(|x| x.to_string()).collect()))
        .collect()
}

#[test]
fn end_to_end_two_chapters() {
    let contents = vec![
        content("c1", ContentKind::ChapterTitle, "Ch1", 1),
        content("c2", ContentKind::ChapterTitle, "Ch2", 2),
    ];
    let highlights = vec![
        highlight("c1-p3", Some("hello"), false, "b", 1),
        highlight("c2-p1", Some("world"), false, "b", 1),
        highlight("c2-p9", Some(""), false, "b", 2),
    ];
    let library = Library::new(contents, highlights);
    let chapters = library.get_bookmarks_for_book(&the_book("b"));
    assert_eq!(shape(&chapters), owned(&[("Ch1", &["hello"]), ("Ch2", &["world"])]));
    assert_eq!(chapters[0].bookmarks[0].chapter_title, Some("Ch1".to_string()));
    assert_eq!(chapters[0].bookmarks[0].content_id, "c1-p3");
}

#[test]
fn hidden_and_empty_highlights_are_dropped() {
    let contents = vec![content("u1", ContentKind::HighlightableUnit, "", 1)];
    let highlights = vec![
        highlight("u1", Some("kept"), false, "b", 1),
        highlight("u1", Some("hidden"), true, "b", 2),
        highlight("u1", Some(""), false, "b", 3),
        highlight("u1", None, false, "b", 4),
    ];
    let out = select_bookmarks(&contents, &highlights, None);
    assert_eq!(out.len(), 1);
    assert_eq!(out[0].text, "kept");
}

#[test]
fn stream_is_ordered_by_chapter_then_progress() {
    let contents = vec![
        content("u2", ContentKind::HighlightableUnit, "", 2),
        content("u1", ContentKind::HighlightableUnit, "", 1),
        content("u1#t", ContentKind::ChapterTitle, "One", 1),
        content("u2#t", ContentKind::ChapterTitle, "Two", 2),
    ];
    let highlights = vec![
        highlight("u2", Some("c"), false, "b", 5),
        highlight("zz", Some("unresolved"), false, "b", 0),
        highlight("u1", Some("b"), false, "b", 7),
        highlight("u1", Some("a"), false, "b", 3),
        highlight("u2", Some("d"), false, "b", 5),
    ];
    let out = select_bookmarks(&contents, &highlights, None);
    let texts: Vec<&str> = out.iter().map(|b| b.text.as_str()).collect();
    assert_eq!(texts, vec!["a", "b", "c", "d", "unresolved"]);
    assert_eq!(out[0].chapter_title, Some("One".to_string()));
    assert_eq!(out[2].chapter_title, Some("Two".to_string()));
    assert_eq!(out[4].chapter_title, None);
}

#[test]
fn unit_without_match_uses_preceding_title() {
    let contents = vec![
        content("u1", ContentKind::HighlightableUnit, "", 1),
        content("u1#t", ContentKind::ChapterTitle, "One", 1),
        content("u2", ContentKind::HighlightableUnit, "", 2),
    ];
    let highlights = vec![
        highlight("u2", Some("later"), false, "b", 5),
        highlight("u1", Some("first"), false, "b", 1),
    ];
    let library = Library::new(contents, highlights);
    let chapters = library.get_bookmarks_for_book(&the_book("b"));
    assert_eq!(shape(&chapters), owned(&[("One", &["first", "later"])]));
}

#[test]
fn highlights_of_other_books_are_left_out() {
    let contents = vec![content("c1", ContentKind::ChapterTitle, "Ch1", 1)];
    let highlights = vec![
        highlight("c1-a", Some("mine"), false, "b", 1),
        highlight("c1-b", Some("theirs"), false, "other", 2),
    ];
    let library = Library::new(contents, highlights);
    let chapters = library.get_bookmarks_for_book(&the_book("b"));
    assert_eq!(shape(&chapters), owned(&[("Ch1", &["mine"])]));
}

#[test]
fn same_snapshot_gives_same_tree() {
    let make = || {
        Library::new(
            vec![
                book_row("b", "Title", "Author", "application/epub+zip"),
                content("c1", ContentKind::ChapterTitle, "Ch1", 1),
                content("c2", ContentKind::ChapterTitle, "Ch2", 2),
            ],
            vec![
                highlight("c2-x", Some("two"), false, "b", 1),
                highlight("c1-x", Some("one"), false, "b", 1),
            ],
        )
    };
    let first = make().get_bookmarks();
    let second = make().get_bookmarks();
    assert_eq!(first.len(), second.len());
    for (a, b) in first.iter().zip(second.iter()) {
        assert_eq!(a.0, b.0);
        assert_eq!(shape(&a.1), shape(&b.1));
    }
    assert_eq!(format!("{:?}", first), format!("{:?}", second));
}

#[test]
fn whole_library_is_grouped_by_book_title() {
    let library = Library::new(
        vec![
            book_row("b", "First Book", "A", "application/epub+zip"),
            book_row("k", "Second Book", "B", "application/x-kobo-epub+zip"),
            content("c1", ContentKind::ChapterTitle, "Ch1", 1),
            in_book(content("k3", ContentKind::ChapterTitle, "K3", 3), "k"),
        ],
        vec![
            highlight("k3-a", Some("kobo"), false, "k", 1),
            highlight("c1-a", Some("epub"), false, "b", 1),
            highlight("zz", Some("nowhere"), false, "missing", 1),
        ],
    );
    let tree = library.get_bookmarks();
    assert_eq!(tree.len(), 3);
    assert_eq!(tree[0].0, "First Book");
    assert_eq!(shape(&tree[0].1), owned(&[("Ch1", &["epub"])]));
    assert_eq!(tree[1].0, "Second Book");
    assert_eq!(shape(&tree[1].1), owned(&[("K3", &["kobo"])]));
    assert_eq!(tree[2].0, "");
    assert_eq!(shape(&tree[2].1), owned(&[("", &["nowhere"])]));
}

#[test]
fn books_are_top_level_epub_rows_in_store_order() {
    let mut nested = book_row("n", "Nested", "X", "application/epub+zip");
    nested.book_title = Some("Parent".to_string());
    let library = Library::new(
        vec![
            book_row("b", "Epub", "A", "application/epub+zip"),
            book_row("p", "Pdf", "B", "application/pdf"),
            nested,
            book_row("k", "Kepub", "C", "application/x-kobo-epub+zip"),
        ],
        Vec::new(),
    );
    let books = library.get_books();
    let ids: Vec<&str> = books.iter().map(|b| b.content_id.as_str()).collect();
    assert_eq!(ids, vec!["b", "k"]);
    assert_eq!(books[1].title, "Kepub");
    assert_eq!(books[1].author, "C");
}

#[test]
fn get_book_finds_first_match_or_none() {
    let library = Library::new(
        vec![
            book_row("p", "Pdf", "B", "application/pdf"),
            book_row("b", "Epub", "A", "application/epub+zip"),
            book_row("b", "Again", "A", "application/epub+zip"),
        ],
        Vec::new(),
    );
    let found = library.get_book("b".to_string()).expect("book b");
    assert_eq!(found.title, "Epub");
    assert!(library.get_book("p".to_string()).is_none());
    assert!(library.get_book("missing".to_string()).is_none());
}

#[test]
fn empty_library_has_nothing() {
    let library = Library::new(Vec::new(), Vec::new());
    assert!(library.get_books().is_empty());
    assert!(library.get_bookmarks().is_empty());
    assert!(library.get_bookmarks_for_book(&the_book("b")).is_empty());
}

#[test]
fn known_unit_resolves_as_the_unit_does() {
    let contents = vec![
        content("uv", ContentKind::HighlightableUnit, "", 5),
        content("u", ContentKind::ChapterTitle, "Later", 9),
    ];
    let highlights = vec![highlight("uv", Some("text"), false, "b", 1)];
    let out = select_bookmarks(&contents, &highlights, None);
    assert_eq!(out[0].chapter_title, None);

    let mut contents = contents;
    contents.push(content("x", ContentKind::ChapterTitle, "Earlier", 3));
    let out = select_bookmarks(&contents, &highlights, None);
    assert_eq!(out[0].chapter_title, Some("Earlier".to_string()));
}

#[test]
fn prefix_match_stays_within_the_book() {
    let contents = vec![
        in_book(content("u", ContentKind::HighlightableUnit, "", 1), "B"),
        in_book(content("ua", ContentKind::ChapterTitle, "Other book", 1), "C"),
        in_book(content("ub", ContentKind::ChapterTitle, "Own book", 1), "B"),
    ];
    let highlights = vec![highlight("u", Some("text"), false, "B", 1)];
    let out = select_bookmarks(&contents, &highlights, None);
    assert_eq!(out[0].chapter_title, Some("Own book".to_string()));
}

#[test]
fn unresolved_chapter_comes_last() {
    let contents = vec![
        content("a", ContentKind::HighlightableUnit, "", 1),
        content("b", ContentKind::HighlightableUnit, "", 5),
        content("b#", ContentKind::ChapterTitle, "Bee", 5),
    ];
    let highlights = vec![
        highlight("a", Some("in a"), false, "b", 1),
        highlight("b", Some("in b"), false, "b", 1),
    ];
    let library = Library::new(contents, highlights);
    let chapters = library.get_bookmarks_for_book(&the_book("b"));
    assert_eq!(shape(&chapters), owned(&[("Bee", &["in b"]), ("", &["in a"])]));
}

#[test]
fn chapters_follow_the_resolved_title_volume() {
    let contents = vec![
        content("u1", ContentKind::HighlightableUnit, "", 1),
        content("u2", ContentKind::HighlightableUnit, "", 2),
        content("u1#late", ContentKind::ChapterTitle, "Late", 8),
        content("u2#early", ContentKind::ChapterTitle, "Early", 3),
    ];
    let highlights = vec![
        highlight("u1", Some("one"), false, "b", 1),
        highlight("u2", Some("two"), false, "b", 1),
    ];
    let out = select_bookmarks(&contents, &highlights, Some(&"b".to_string()));
    let texts: Vec<&str> = out.iter().map(|b| b.text.as_str()).collect();
    assert_eq!(texts, vec!["two", "one"]);
}
