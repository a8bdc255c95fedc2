use koldpress::resolve::resolve_chapter_title;
use koldpress::{ContentItem, ContentKind};

fn item(id: &str, kind: ContentKind, title: &str, volume_index: i64, book: &str) -> ContentItem {
    ContentItem {
        content_id: id.to_string(),
        kind,
        title: title.to_string(),
        book_title: Some("Book".to_string()),
        attribution: String::new(),
        mime_type: String::new(),
        volume_index,
        book_id: book.to_string(),
    }
}

fn title(id: &str, name: &str, volume_index: i64) -> ContentItem {
    item(id, ContentKind::ChapterTitle, name, volume_index, "b1")
}

fn unit(id: &str, volume_index: i64) -> ContentItem {
    item(id, ContentKind::HighlightableUnit, "", volume_index, "b1")
}

#[test]
fn prefix_match_wins_over_preceding_title() {
    let contents = vec![title("u1.html#intro", "Intro", 1), title("u5.html#ch5", "Five", 5)];
    let target = unit("u5.html", 9);
    assert_eq!(resolve_chapter_title(&contents, &target), Some("Five".to_string()));
}

#[test]
fn prefix_match_beats_nearer_preceding_title() {
    let contents = vec![title("u2.html#ch", "Two", 2), title("u8.html#ch", "Eight", 8)];
    let target = unit("u2.html", 9);
    assert_eq!(resolve_chapter_title(&contents, &target), Some("Two".to_string()));
}

#[test]
fn several_prefix_matches_take_smallest_id() {
    let contents = vec![
        title("u3.html#z", "Zed", 3),
        title("u3.html#b", "Bee", 3),
        title("u3.html#m", "Em", 3),
    ];
    let target = unit("u3.html", 3);
    assert_eq!(resolve_chapter_title(&contents, &target), Some("Bee".to_string()));
}

#[test]
fn equal_ids_take_first_row() {
    let contents = vec![title("u3.html#a", "First", 3), title("u3.html#a", "Second", 3)];
    let target = unit("u3.html", 3);
    assert_eq!(resolve_chapter_title(&contents, &target), Some("First".to_string()));
}

#[test]
fn fallback_takes_nearest_preceding_title() {
    let contents = vec![
        title("a#1", "One", 1),
        title("c#3", "Three", 3),
        title("b#2", "Two", 2),
        title("e#5", "Five", 5),
    ];
    let target = unit("d", 4);
    assert_eq!(resolve_chapter_title(&contents, &target), Some("Three".to_string()));
}

#[test]
fn fallback_never_takes_equal_or_later_title() {
    let contents = vec![title("a#1", "One", 1), title("x#4", "Four", 4), title("y#6", "Six", 6)];
    let target = unit("d", 4);
    assert_eq!(resolve_chapter_title(&contents, &target), Some("One".to_string()));
}

#[test]
fn fallback_stays_within_the_book() {
    let mut other = title("a#3", "Other book", 3);
    other.book_id = "b2".to_string();
    let contents = vec![title("a#1", "Mine", 1), other];
    let target = unit("d", 4);
    assert_eq!(resolve_chapter_title(&contents, &target), Some("Mine".to_string()));
}

#[test]
fn fallback_ties_take_first_row() {
    let contents = vec![title("a#2", "Early", 2), title("b#2", "Late", 2)];
    let target = unit("d", 4);
    assert_eq!(resolve_chapter_title(&contents, &target), Some("Early".to_string()));
}

#[test]
fn target_before_every_title_resolves_to_none() {
    let contents = vec![title("x#3", "Three", 3), title("y#5", "Five", 5)];
    let target = unit("d", 2);
    assert_eq!(resolve_chapter_title(&contents, &target), None);
}

#[test]
fn no_candidates_resolves_to_none() {
    let contents = vec![unit("d", 1), unit("e", 2)];
    let target = unit("e", 2);
    assert_eq!(resolve_chapter_title(&contents, &target), None);
}

#[test]
fn non_title_rows_are_not_candidates() {
    let contents = vec![unit("u1.html#x", 1)];
    let target = unit("u1.html", 2);
    assert_eq!(resolve_chapter_title(&contents, &target), None);
}

#[test]
fn content_kind_from_type_codes() {
    assert_eq!(ContentKind::from_type_code(6), ContentKind::Book);
    assert_eq!(ContentKind::from_type_code(9), ContentKind::HighlightableUnit);
    assert_eq!(ContentKind::from_type_code(899), ContentKind::ChapterTitle);
    assert_eq!(ContentKind::from_type_code(42), ContentKind::Other);
}

#[test]
fn fallback_ties_take_smallest_id_whatever_the_row_order() {
    let forward = vec![title("a#2", "Alpha", 2), title("b#2", "Beta", 2)];
    let backward = vec![title("b#2", "Beta", 2), title("a#2", "Alpha", 2)];
    let target = unit("d", 4);
    assert_eq!(resolve_chapter_title(&forward, &target), Some("Alpha".to_string()));
    assert_eq!(resolve_chapter_title(&backward, &target), Some("Alpha".to_string()));
}

#[test]
fn prefix_match_ignores_other_books() {
    let mut other = title("u.html#a", "Other", 1);
    other.book_id = "b2".to_string();
    let contents = vec![other, title("u.html#b", "Mine", 1)];
    let target = unit("u.html", 1);
    assert_eq!(resolve_chapter_title(&contents, &target), Some("Mine".to_string()));
}

#[test]
fn unit_with_only_later_titles_resolves_to_none() {
    let contents = vec![title("u", "Later", 9)];
    let target = unit("uv", 5);
    assert_eq!(resolve_chapter_title(&contents, &target), None);
}
