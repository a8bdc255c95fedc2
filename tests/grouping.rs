use koldpress::group::{group_by_book, group_chapters};
use koldpress::{Bookmark, Chapter};

fn mark(text: &str, title: Option<&str>) -> Bookmark {
    Bookmark {
        content_id: format!("id-{}", text),
        chapter_title: title.map(|t| t.to_string()),
        text: text.to_string(),
    }
}

fn texts(c: &Chapter) -> Vec<String> {
    c.bookmarks.iter().map(|b| b.text.clone()).collect()
}

#[test]
fn contiguous_runs_are_not_merged() {
    let stream = vec![
        mark("1", Some("A")),
        mark("2", Some("A")),
        mark("3", Some("B")),
        mark("4", Some("A")),
    ];
    let chapters = group_chapters(&stream);
    assert_eq!(chapters.len(), 3);
    assert_eq!(chapters[0].title, "A");
    assert_eq!(texts(&chapters[0]), vec!["1", "2"]);
    assert_eq!(chapters[1].title, "B");
    assert_eq!(texts(&chapters[1]), vec!["3"]);
    assert_eq!(chapters[2].title, "A");
    assert_eq!(texts(&chapters[2]), vec!["4"]);
    assert!(chapters.iter().all(|c| c.children.is_empty()));
}

#[test]
fn unresolved_title_groups_with_empty_title() {
    let stream = vec![mark("1", None), mark("2", Some("")), mark("3", Some("X"))];
    let chapters = group_chapters(&stream);
    assert_eq!(chapters.len(), 2);
    assert_eq!(chapters[0].title, "");
    assert_eq!(texts(&chapters[0]), vec!["1", "2"]);
    assert_eq!(chapters[0].bookmarks[0].chapter_title, None);
    assert_eq!(chapters[1].title, "X");
}

#[test]
fn empty_stream_gives_no_chapters() {
    assert!(group_chapters(&Vec::new()).is_empty());
}

#[test]
fn books_are_grouped_by_contiguous_runs() {
    let entries = vec![
        ("B1".to_string(), mark("1", Some("A"))),
        ("B1".to_string(), mark("2", Some("B"))),
        ("B2".to_string(), mark("3", Some("A"))),
        ("B1".to_string(), mark("4", Some("B"))),
    ];
    let tree = group_by_book(entries);
    assert_eq!(tree.len(), 3);
    assert_eq!(tree[0].0, "B1");
    assert_eq!(tree[0].1.len(), 2);
    assert_eq!(texts(&tree[0].1[0]), vec!["1"]);
    assert_eq!(texts(&tree[0].1[1]), vec!["2"]);
    assert_eq!(tree[1].0, "B2");
    assert_eq!(tree[1].1.len(), 1);
    assert_eq!(tree[2].0, "B1");
    assert_eq!(texts(&tree[2].1[0]), vec!["4"]);
}
