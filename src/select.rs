//! Selection of the highlights to export, each joined with its chapter title,
//! in canonical order: by the volume index of the chapter-title row it was
//! resolved to (unresolved ones last), then by progress within the chapter,
//! then by row.
use vstd::prelude::*;
use crate::model::{Bookmark, BookmarkView, ContentItem, ContentKind, Highlight, opt_chars};
use crate::resolve::{
    as_index, book_ids, book_ids_match, chapter_row_for, chapter_row_of, content_ids, find_anchor,
    find_extension, ids_match, prefix_choice, resolved_title, title_at,
};
use crate::index::{find_exact, is_kind_index, kind_index, lemma_contains_extend, lemma_contains_push, row_key};
use crate::text::{chars_of, same_chars};

verus! {

/// A highlight is exported when it is visible and has non-empty text.
pub open spec fn is_eligible(h: Highlight) -> bool {
    !h.hidden && match h.text {
        Some(t) => t@.len() > 0,
        None => false,
    }
}

/// The highlight belongs to the book in scope (every book when none is).
pub open spec fn in_scope(h: Highlight, book_id: Option<Seq<char>>) -> bool {
    match book_id {
        Some(b) => h.volume_id@ == b,
        None => true,
    }
}

pub open spec fn is_selected(h: Highlight, book_id: Option<Seq<char>>) -> bool {
    is_eligible(h) && in_scope(h, book_id)
}

pub open spec fn is_unit_for(contents: Seq<ContentItem>, book: Seq<char>, id: Seq<char>, i: int) -> bool {
    &&& 0 <= i < contents.len()
    &&& contents[i].kind == ContentKind::HighlightableUnit
    &&& contents[i].book_id@ == book
    &&& contents[i].content_id@ == id
}

pub open spec fn is_first_unit(contents: Seq<ContentItem>, book: Seq<char>, id: Seq<char>, i: int) -> bool {
    is_unit_for(contents, book, id, i) && forall|j: int| 0 <= j < i ==> !#[trigger] is_unit_for(contents, book, id, j)
}

/// The first unit row of book `book` with content id `id`.
pub open spec fn unit_of(contents: Seq<ContentItem>, book: Seq<char>, id: Seq<char>) -> Option<int> {
    if exists|i: int| is_first_unit(contents, book, id, i) {
        Some(choose|i: int| is_first_unit(contents, book, id, i))
    } else {
        None
    }
}

/// The chapter-title row of a highlight of book `book` made in the unit with
/// id `id`. When that unit row is known, the highlight resolves as the unit
/// does. Otherwise: a chapter title of the book whose id extends `id`; else
/// one whose id `id` extends (the highlight may name a chapter title's own
/// row, or an anchor inside it); else none.
pub open spec fn highlight_chapter(contents: Seq<ContentItem>, book: Seq<char>, id: Seq<char>) -> Option<int> {
    match unit_of(contents, book, id) {
        Some(u) => chapter_row_of(contents, id, book, contents[u].volume_index),
        None => match prefix_choice(contents, book, id, false) {
            Some(c) => Some(c),
            None => prefix_choice(contents, book, id, true),
        },
    }
}

/// The chapter title of the highlight: see `highlight_chapter`.
pub open spec fn highlight_title(contents: Seq<ContentItem>, book: Seq<char>, id: Seq<char>) -> Option<Seq<char>> {
    title_at(contents, highlight_chapter(contents, book, id))
}

/// The volume index a highlight is ordered by: that of the chapter-title row
/// it resolved to; none when it resolved to none.
pub open spec fn highlight_position(contents: Seq<ContentItem>, book: Seq<char>, id: Seq<char>) -> Option<i64> {
    match highlight_chapter(contents, book, id) {
        Some(c) => Some(contents[c].volume_index),
        None => None,
    }
}

/// A highlight made in a known unit row of its book gets the title that unit
/// resolves to.
pub proof fn lemma_highlight_resolves_as_unit(contents: Seq<ContentItem>, book: Seq<char>, id: Seq<char>, u: int)
    requires
        is_first_unit(contents, book, id, u),
    ensures
        highlight_title(contents, book, id) == resolved_title(contents, contents[u]),
{
    let c = choose|c: int| is_first_unit(contents, book, id, c);
    assert(c == u) by {
        if c < u {
            assert(!is_unit_for(contents, book, id, c));
        }
        if u < c {
            assert(!is_unit_for(contents, book, id, u));
        }
    }
}

/// Canonical order on (position, progress, row); absent positions come last.
pub open spec fn key_before(pa: Option<i64>, ga: i64, a: int, pb: Option<i64>, gb: i64, b: int) -> bool {
    match (pa, pb) {
        (Some(x), Some(y)) => x < y || (x == y && (ga < gb || (ga == gb && a < b))),
        (Some(_), None) => true,
        (None, Some(_)) => false,
        (None, None) => ga < gb || (ga == gb && a < b),
    }
}

pub open spec fn goes_before(contents: Seq<ContentItem>, hs: Seq<Highlight>, a: int, b: int) -> bool {
    key_before(
        highlight_position(contents, hs[a].volume_id@, hs[a].content_id@),
        hs[a].chapter_progress,
        a,
        highlight_position(contents, hs[b].volume_id@, hs[b].content_id@),
        hs[b].chapter_progress,
        b,
    )
}

/// `ord` lists the rows of the selected highlights, each once, in canonical order.
pub open spec fn is_export_order(
    contents: Seq<ContentItem>,
    hs: Seq<Highlight>,
    book_id: Option<Seq<char>>,
    ord: Seq<int>,
) -> bool {
    &&& forall|k: int|
        0 <= k < ord.len() ==> 0 <= #[trigger] ord[k] < hs.len() && is_selected(hs[ord[k]], book_id)
    &&& forall|i: int| 0 <= i < hs.len() && is_selected(#[trigger] hs[i], book_id) ==> ord.contains(i)
    &&& forall|k: int, l: int| 0 <= k < l < ord.len() ==> goes_before(contents, hs, #[trigger] ord[k], #[trigger] ord[l])
}

pub open spec fn export_order(contents: Seq<ContentItem>, hs: Seq<Highlight>, book_id: Option<Seq<char>>) -> Seq<int> {
    if exists|ord: Seq<int>| is_export_order(contents, hs, book_id, ord) {
        choose|ord: Seq<int>| is_export_order(contents, hs, book_id, ord)
    } else {
        Seq::empty()
    }
}

pub open spec fn resolved_bookmark(contents: Seq<ContentItem>, h: Highlight) -> BookmarkView {
    BookmarkView {
        content_id: h.content_id@,
        chapter_title: highlight_title(contents, h.volume_id@, h.content_id@),
        text: h.text->0@,
    }
}

/// The selected highlights joined with their chapter titles, in canonical order.
pub open spec fn export_stream(
    contents: Seq<ContentItem>,
    hs: Seq<Highlight>,
    book_id: Option<Seq<char>>,
) -> Seq<BookmarkView> {
    export_order(contents, hs, book_id).map_values(|i: int| resolved_bookmark(contents, hs[i]))
}

pub open spec fn opt_ref_chars(o: Option<&String>) -> Option<Seq<char>> {
    match o {
        Some(s) => Some(s@),
        None => None,
    }
}

proof fn lemma_key_order(pa: Option<i64>, ga: i64, a: int, pb: Option<i64>, gb: i64, b: int, pc: Option<i64>, gc: i64, c: int)
    ensures
        key_before(pa, ga, a, pb, gb, b) && key_before(pb, gb, b, pc, gc, c) ==> key_before(pa, ga, a, pc, gc, c),
        key_before(pa, ga, a, pb, gb, b) ==> !key_before(pb, gb, b, pa, ga, a),
        a != b ==> key_before(pa, ga, a, pb, gb, b) || key_before(pb, gb, b, pa, ga, a),
{
}

/// Two sequences that are strictly sorted by an asymmetric relation and hold
/// the same elements are equal.
proof fn lemma_sorted_unique(s1: Seq<int>, s2: Seq<int>, lt: spec_fn(int, int) -> bool)
    requires
        forall|a: int, b: int| #[trigger] lt(a, b) ==> !lt(b, a),
        forall|k: int, l: int| 0 <= k < l < s1.len() ==> lt(#[trigger] s1[k], #[trigger] s1[l]),
        forall|k: int, l: int| 0 <= k < l < s2.len() ==> lt(#[trigger] s2[k], #[trigger] s2[l]),
        forall|x: int| s1.contains(x) <==> s2.contains(x),
    ensures
        s1 == s2,
    decreases s1.len(),
{
    if s1.len() == 0 {
        if s2.len() > 0 {
            assert(s2.contains(s2[0]));
        }
        assert(s1 =~= s2);
    } else {
        let x = s1[0];
        assert(s1.contains(x));
        let p = choose|p: int| 0 <= p < s2.len() && s2[p] == x;
        let y = s2[0];
        assert(s2.contains(y));
        let q = choose|q: int| 0 <= q < s1.len() && s1[q] == y;
        if p > 0 {
            assert(lt(y, x));
            if q > 0 {
                assert(lt(x, y));
            }
        }
        assert(x == y);
        let t1 = s1.drop_first();
        let t2 = s2.drop_first();
        assert forall|z: int| t1.contains(z) <==> t2.contains(z) by {
            if t1.contains(z) {
                let k = choose|k: int| 0 <= k < t1.len() && t1[k] == z;
                assert(s1[k + 1] == z);
                assert(lt(s1[0], s1[k + 1]));
                assert(s1.contains(z));
                let m = choose|m: int| 0 <= m < s2.len() && s2[m] == z;
                if m == 0 {
                    assert(!lt(z, z));
                }
                assert(t2[m - 1] == z);
            }
            if t2.contains(z) {
                let k = choose|k: int| 0 <= k < t2.len() && t2[k] == z;
                assert(s2[k + 1] == z);
                assert(lt(s2[0], s2[k + 1]));
                assert(s2.contains(z));
                let m = choose|m: int| 0 <= m < s1.len() && s1[m] == z;
                if m == 0 {
                    assert(!lt(z, z));
                }
                assert(t1[m - 1] == z);
            }
        }
        lemma_sorted_unique(t1, t2, lt);
        assert(s1 =~= seq![x] + t1);
        assert(s2 =~= seq![y] + t2);
    }
}

/// There is one canonical order of the selected highlights: any sequence of
/// them in canonical order is the exported one.
pub proof fn lemma_export_order_unique(
    contents: Seq<ContentItem>,
    hs: Seq<Highlight>,
    book_id: Option<Seq<char>>,
    ord: Seq<int>,
)
    requires
        is_export_order(contents, hs, book_id, ord),
    ensures
        export_order(contents, hs, book_id) == ord,
{
    let other = export_order(contents, hs, book_id);
    let lt = |a: int, b: int| goes_before(contents, hs, a, b);
    assert forall|a: int, b: int| #[trigger] lt(a, b) implies !lt(b, a) by {
        lemma_key_order(
            highlight_position(contents, hs[a].volume_id@, hs[a].content_id@), hs[a].chapter_progress, a,
            highlight_position(contents, hs[b].volume_id@, hs[b].content_id@), hs[b].chapter_progress, b,
            highlight_position(contents, hs[a].volume_id@, hs[a].content_id@), hs[a].chapter_progress, a,
        );
    }
    assert forall|x: int| ord.contains(x) <==> other.contains(x) by {
        if ord.contains(x) {
            let k = choose|k: int| 0 <= k < ord.len() && ord[k] == x;
            assert(0 <= ord[k] < hs.len() && is_selected(hs[ord[k]], book_id));
        }
        if other.contains(x) {
            let k = choose|k: int| 0 <= k < other.len() && other[k] == x;
            assert(0 <= other[k] < hs.len() && is_selected(hs[other[k]], book_id));
        }
    }
    lemma_sorted_unique(ord, other, lt);
}

/// A hidden highlight, or one with absent or empty text, is never exported.
pub proof fn lemma_ineligible_dropped(
    contents: Seq<ContentItem>,
    hs: Seq<Highlight>,
    book_id: Option<Seq<char>>,
    i: int,
)
    requires
        0 <= i < hs.len(),
        hs[i].hidden || hs[i].text is None || hs[i].text->0@.len() == 0,
    ensures
        !export_order(contents, hs, book_id).contains(i),
{
    let ord = export_order(contents, hs, book_id);
    if ord.contains(i) {
        let k = choose|k: int| 0 <= k < ord.len() && ord[k] == i;
        assert(is_selected(hs[ord[k]], book_id));
    }
}

/// The first unit row of book `book` with content id `id`, as `unit_of`
/// picks it, found by binary search in the index of unit rows.
fn find_unit(
    contents: &Vec<ContentItem>,
    ids: &Vec<Vec<char>>,
    owners: &Vec<Vec<char>>,
    units: &Vec<usize>,
    book: &Vec<char>,
    id: &Vec<char>,
) -> (r: Option<usize>)
    requires
        ids_match(contents@, ids@),
        book_ids_match(contents@, owners@),
        is_kind_index(contents@, ContentKind::HighlightableUnit, units@),
    ensures
        as_index(r) == unit_of(contents@, book@, id@),
{
    let r = find_exact(contents, ids, owners, units, ContentKind::HighlightableUnit, book, id);
    proof {
        match r {
            Some(u) => {
                assert forall|j: int| 0 <= j < u implies !#[trigger] is_unit_for(contents@, book@, id@, j) by {
                    if is_unit_for(contents@, book@, id@, j) {
                        assert(contents@[j].kind == ContentKind::HighlightableUnit);
                        assert(row_key(contents@[j]) == (book@, id@));
                    }
                }
                assert(is_first_unit(contents@, book@, id@, u as int));
                let c = choose|c: int| is_first_unit(contents@, book@, id@, c);
                assert(c == u) by {
                    if c < u {
                        assert(!is_unit_for(contents@, book@, id@, c));
                    }
                    if u < c {
                        assert(!is_unit_for(contents@, book@, id@, u as int));
                    }
                }
            },
            None => {
                assert forall|c: int| !is_first_unit(contents@, book@, id@, c) by {
                    if is_unit_for(contents@, book@, id@, c) {
                        assert(contents@[c].kind == ContentKind::HighlightableUnit);
                        assert(row_key(contents@[c]) == (book@, id@));
                    }
                }
            },
        }
    }
    r
}

/// The ordering position and chapter title of a highlight of book `book`
/// made in unit `id`.
fn resolve_highlight(
    contents: &Vec<ContentItem>,
    ids: &Vec<Vec<char>>,
    owners: &Vec<Vec<char>>,
    indexes: &(Vec<usize>, Vec<usize>),
    book: &Vec<char>,
    id: &Vec<char>,
) -> (r: (Option<i64>, Option<String>))
    requires
        ids_match(contents@, ids@),
        book_ids_match(contents@, owners@),
        is_kind_index(contents@, ContentKind::ChapterTitle, indexes.0@),
        is_kind_index(contents@, ContentKind::HighlightableUnit, indexes.1@),
    ensures
        r.0 == highlight_position(contents@, book@, id@),
        opt_chars(r.1) == highlight_title(contents@, book@, id@),
{
    let chapter = match find_unit(contents, ids, owners, &indexes.1, book, id) {
        Some(u) => chapter_row_for(contents, ids, owners, &indexes.0, id, book, contents[u].volume_index),
        None => match find_extension(contents, ids, owners, &indexes.0, book, id) {
            Some(c) => Some(c),
            None => find_anchor(contents, ids, owners, &indexes.0, book, id),
        },
    };
    assert(as_index(chapter) == highlight_chapter(contents@, book@, id@));
    match chapter {
        Some(c) => (Some(contents[c].volume_index), Some(contents[c].title.clone())),
        None => (None, None),
    }
}

fn selected(h: &Highlight, book_id: Option<&Vec<char>>) -> (r: bool)
    ensures
        r == is_selected(*h, match book_id {
            Some(b) => Some(b@),
            None => None,
        }),
{
    if h.hidden {
        return false;
    }
    let has_text = match &h.text {
        Some(t) => !t.as_str().is_empty(),
        None => false,
    };
    if !has_text {
        return false;
    }
    match book_id {
        Some(b) => {
            let v = chars_of(&h.volume_id);
            same_chars(&v, b)
        },
        None => true,
    }
}

/// Per row of `hs`: the ordering position and chapter title of the highlight.
fn resolve_all(
    contents: &Vec<ContentItem>,
    ids: &Vec<Vec<char>>,
    owners: &Vec<Vec<char>>,
    indexes: &(Vec<usize>, Vec<usize>),
    hs: &Vec<Highlight>,
) -> (r: (Vec<Option<i64>>, Vec<Option<String>>))
    requires
        ids_match(contents@, ids@),
        book_ids_match(contents@, owners@),
        is_kind_index(contents@, ContentKind::ChapterTitle, indexes.0@),
        is_kind_index(contents@, ContentKind::HighlightableUnit, indexes.1@),
    ensures
        r.0@.len() == hs@.len(),
        r.1@.len() == hs@.len(),
        forall|i: int|
            0 <= i < hs@.len() ==> #[trigger] r.0@[i] == highlight_position(contents@, hs@[i].volume_id@, hs@[i].content_id@),
        forall|i: int|
            0 <= i < hs@.len() ==> opt_chars(#[trigger] r.1@[i]) == highlight_title(contents@, hs@[i].volume_id@, hs@[i].content_id@),
{
    let mut positions: Vec<Option<i64>> = Vec::new();
    let mut titles: Vec<Option<String>> = Vec::new();
    let mut k: usize = 0;
    while k < hs.len()
        invariant
            ids_match(contents@, ids@),
            book_ids_match(contents@, owners@),
            is_kind_index(contents@, ContentKind::ChapterTitle, indexes.0@),
            is_kind_index(contents@, ContentKind::HighlightableUnit, indexes.1@),
            k <= hs@.len(),
            positions@.len() == k,
            titles@.len() == k,
            forall|i: int|
                0 <= i < k ==> #[trigger] positions@[i] == highlight_position(contents@, hs@[i].volume_id@, hs@[i].content_id@),
            forall|i: int|
                0 <= i < k ==> opt_chars(#[trigger] titles@[i]) == highlight_title(contents@, hs@[i].volume_id@, hs@[i].content_id@),
        decreases hs.len() - k,
    {
        let id = chars_of(&hs[k].content_id);
        let book = chars_of(&hs[k].volume_id);
        let (position, title) = resolve_highlight(contents, ids, owners, indexes, &book, &id);
        positions.push(position);
        titles.push(title);
        k = k + 1;
    }
    (positions, titles)
}

fn key_less(pa: Option<i64>, ga: i64, a: usize, pb: Option<i64>, gb: i64, b: usize) -> (r: bool)
    ensures
        r == key_before(pa, ga, a as int, pb, gb, b as int),
{
    match (pa, pb) {
        (Some(x), Some(y)) => x < y || (x == y && (ga < gb || (ga == gb && a < b))),
        (Some(_), None) => true,
        (None, Some(_)) => false,
        (None, None) => ga < gb || (ga == gb && a < b),
    }
}

/// `positions` holds the ordering position of each highlight.
pub open spec fn positions_match(contents: Seq<ContentItem>, hs: Seq<Highlight>, positions: Seq<Option<i64>>) -> bool {
    &&& positions.len() == hs.len()
    &&& forall|i: int|
        0 <= i < hs.len() ==> #[trigger] positions[i] == highlight_position(contents, hs[i].volume_id@, hs[i].content_id@)
}

/// `s` holds rows of `hs` in strictly canonical order.
pub open spec fn rows_in_order(contents: Seq<ContentItem>, hs: Seq<Highlight>, s: Seq<usize>) -> bool {
    &&& forall|k: int| 0 <= k < s.len() ==> #[trigger] s[k] < hs.len()
    &&& forall|k: int, l: int| 0 <= k < l < s.len() ==> goes_before(contents, hs, #[trigger] s[k] as int, #[trigger] s[l] as int)
}

proof fn lemma_goes_before_order(contents: Seq<ContentItem>, hs: Seq<Highlight>, a: int, b: int, c: int)
    ensures
        goes_before(contents, hs, a, b) && goes_before(contents, hs, b, c) ==> goes_before(contents, hs, a, c),
        goes_before(contents, hs, a, b) ==> !goes_before(contents, hs, b, a),
        a != b ==> goes_before(contents, hs, a, b) || goes_before(contents, hs, b, a),
{
    lemma_key_order(
        highlight_position(contents, hs[a].volume_id@, hs[a].content_id@), hs[a].chapter_progress, a,
        highlight_position(contents, hs[b].volume_id@, hs[b].content_id@), hs[b].chapter_progress, b,
        highlight_position(contents, hs[c].volume_id@, hs[c].content_id@), hs[c].chapter_progress, c,
    );
}

fn row_goes_before(contents: &Vec<ContentItem>, hs: &Vec<Highlight>, positions: &Vec<Option<i64>>, a: usize, b: usize) -> (r:
    bool)
    requires
        positions_match(contents@, hs@, positions@),
        a < hs@.len(),
        b < hs@.len(),
    ensures
        r == goes_before(contents@, hs@, a as int, b as int),
{
    key_less(positions[a], hs[a].chapter_progress, a, positions[b], hs[b].chapter_progress, b)
}

/// Merges two runs of rows in canonical order with no row in common.
fn merge_rows(
    contents: &Vec<ContentItem>,
    hs: &Vec<Highlight>,
    positions: &Vec<Option<i64>>,
    a: &Vec<usize>,
    b: &Vec<usize>,
) -> (r: Vec<usize>)
    requires
        positions_match(contents@, hs@, positions@),
        rows_in_order(contents@, hs@, a@),
        rows_in_order(contents@, hs@, b@),
        forall|x: usize| !(a@.contains(x) && b@.contains(x)),
    ensures
        rows_in_order(contents@, hs@, r@),
        r@.len() == a@.len() + b@.len(),
        forall|x: usize| r@.contains(x) <==> a@.contains(x) || b@.contains(x),
{
    let mut out: Vec<usize> = Vec::new();
    let mut i: usize = 0;
    let mut j: usize = 0;
    while i < a.len() || j < b.len()
        invariant
            positions_match(contents@, hs@, positions@),
            rows_in_order(contents@, hs@, a@),
            rows_in_order(contents@, hs@, b@),
            forall|x: usize| !(a@.contains(x) && b@.contains(x)),
            i <= a@.len(),
            j <= b@.len(),
            rows_in_order(contents@, hs@, out@),
            out@.len() == i + j,
            forall|x: usize| out@.contains(x) <==> a@.subrange(0, i as int).contains(x) || b@.subrange(0, j as int).contains(x),
            i < a@.len() ==> forall|k: int| 0 <= k < out@.len() ==> goes_before(contents@, hs@, #[trigger] out@[k] as int, a@[i as int] as int),
            j < b@.len() ==> forall|k: int| 0 <= k < out@.len() ==> goes_before(contents@, hs@, #[trigger] out@[k] as int, b@[j as int] as int),
        decreases a.len() + b.len() - i - j,
    {
        let take_a = if i < a.len() && j < b.len() {
            row_goes_before(contents, hs, positions, a[i], b[j])
        } else {
            i < a.len()
        };
        let ghost before = out@;
        if take_a {
            let x = a[i];
            out.push(x);
            proof {
                if j < b@.len() && !(i < a@.len() && goes_before(contents@, hs@, a@[i as int] as int, b@[j as int] as int)) {
                    assert(false);
                }
                assert forall|y: usize| out@.contains(y) <==> a@.subrange(0, i + 1).contains(y) || b@.subrange(0, j as int).contains(y) by {
                    lemma_contains_push(before, x, y);
                    lemma_contains_extend(a@, i as int, y);
                }
                if i + 1 < a@.len() {
                    assert forall|k: int| 0 <= k < out@.len() implies goes_before(contents@, hs@, #[trigger] out@[k] as int, a@[i + 1] as int) by {
                        assert(goes_before(contents@, hs@, a@[i as int] as int, a@[i + 1] as int));
                        if k < before.len() {
                            lemma_goes_before_order(contents@, hs@, out@[k] as int, a@[i as int] as int, a@[i + 1] as int);
                        }
                    }
                }
                if j < b@.len() {
                    assert forall|k: int| 0 <= k < out@.len() implies goes_before(contents@, hs@, #[trigger] out@[k] as int, b@[j as int] as int) by {
                    }
                }
                assert forall|k: int, l: int| 0 <= k < l < out@.len() implies goes_before(contents@, hs@, #[trigger] out@[k] as int, #[trigger] out@[l] as int) by {
                    if l < before.len() {
                        assert(out@[k] == before[k] && out@[l] == before[l]);
                    }
                }
            }
            i = i + 1;
        } else {
            let x = b[j];
            out.push(x);
            proof {
                assert(j < b@.len());
                if i < a@.len() {
                    assert(!goes_before(contents@, hs@, a@[i as int] as int, b@[j as int] as int));
                    assert(a@.contains(a@[i as int]));
                    assert(a@[i as int] != b@[j as int]) by {
                        assert(b@.contains(b@[j as int]));
                    }
                    lemma_goes_before_order(contents@, hs@, a@[i as int] as int, b@[j as int] as int, a@[i as int] as int);
                }
                assert forall|y: usize| out@.contains(y) <==> a@.subrange(0, i as int).contains(y) || b@.subrange(0, j + 1).contains(y) by {
                    lemma_contains_push(before, x, y);
                    lemma_contains_extend(b@, j as int, y);
                }
                if j + 1 < b@.len() {
                    assert forall|k: int| 0 <= k < out@.len() implies goes_before(contents@, hs@, #[trigger] out@[k] as int, b@[j + 1] as int) by {
                        assert(goes_before(contents@, hs@, b@[j as int] as int, b@[j + 1] as int));
                        if k < before.len() {
                            lemma_goes_before_order(contents@, hs@, out@[k] as int, b@[j as int] as int, b@[j + 1] as int);
                        }
                    }
                }
                assert forall|k: int, l: int| 0 <= k < l < out@.len() implies goes_before(contents@, hs@, #[trigger] out@[k] as int, #[trigger] out@[l] as int) by {
                    if l < before.len() {
                        assert(out@[k] == before[k] && out@[l] == before[l]);
                    }
                }
            }
            j = j + 1;
        }
    }
    assert(a@.subrange(0, a@.len() as int) =~= a@);
    assert(b@.subrange(0, b@.len() as int) =~= b@);
    out
}

/// Sorts the rows `v[lo..hi]` into canonical order; `v` holds rows in
/// increasing order.
fn sort_rows(
    contents: &Vec<ContentItem>,
    hs: &Vec<Highlight>,
    positions: &Vec<Option<i64>>,
    v: &Vec<usize>,
    lo: usize,
    hi: usize,
) -> (r: Vec<usize>)
    requires
        positions_match(contents@, hs@, positions@),
        lo <= hi <= v@.len(),
        forall|k: int, l: int| 0 <= k < l < v@.len() ==> #[trigger] v@[k] < #[trigger] v@[l],
        forall|k: int| 0 <= k < v@.len() ==> #[trigger] v@[k] < hs@.len(),
    ensures
        rows_in_order(contents@, hs@, r@),
        forall|x: usize| r@.contains(x) <==> v@.subrange(lo as int, hi as int).contains(x),
    decreases hi - lo,
{
    if hi - lo == 0 {
        let r: Vec<usize> = Vec::new();
        proof {
            assert forall|x: usize| r@.contains(x) <==> v@.subrange(lo as int, hi as int).contains(x) by {
                if v@.subrange(lo as int, hi as int).contains(x) {
                    let k = choose|k: int| 0 <= k < v@.subrange(lo as int, hi as int).len() && v@.subrange(lo as int, hi as int)[k] == x;
                }
            }
        }
        return r;
    }
    if hi - lo == 1 {
        let mut r: Vec<usize> = Vec::new();
        r.push(v[lo]);
        proof {
            assert(v@.subrange(lo as int, hi as int) =~= seq![v@[lo as int]]);
            assert forall|x: usize| r@.contains(x) <==> v@.subrange(lo as int, hi as int).contains(x) by {
                if r@.contains(x) {
                    assert(v@.subrange(lo as int, hi as int)[0] == x);
                }
                if v@.subrange(lo as int, hi as int).contains(x) {
                    assert(r@[0] == x);
                }
            }
        }
        return r;
    }
    let mid = lo + (hi - lo) / 2;
    let left = sort_rows(contents, hs, positions, v, lo, mid);
    let right = sort_rows(contents, hs, positions, v, mid, hi);
    let ghost whole = v@.subrange(lo as int, hi as int);
    let ghost sl = v@.subrange(lo as int, mid as int);
    let ghost sr = v@.subrange(mid as int, hi as int);
    proof {
        assert forall|x: usize| !(left@.contains(x) && right@.contains(x)) by {
            if left@.contains(x) && right@.contains(x) {
                let k = choose|k: int| 0 <= k < sl.len() && sl[k] == x;
                let m = choose|m: int| 0 <= m < sr.len() && sr[m] == x;
                assert(v@[lo + k] < v@[mid + m]);
            }
        }
    }
    let r = merge_rows(contents, hs, positions, &left, &right);
    proof {
        assert forall|x: usize| r@.contains(x) <==> whole.contains(x) by {
            if sl.contains(x) {
                let k = choose|k: int| 0 <= k < sl.len() && sl[k] == x;
                assert(whole[k] == x);
            }
            if sr.contains(x) {
                let k = choose|k: int| 0 <= k < sr.len() && sr[k] == x;
                assert(whole[k + (mid - lo)] == x);
            }
            if whole.contains(x) {
                let k = choose|k: int| 0 <= k < whole.len() && whole[k] == x;
                if k < mid - lo {
                    assert(sl[k] == x);
                } else {
                    assert(sr[k - (mid - lo)] == x);
                }
            }
        }
    }
    r
}

/// The rows of the selected highlights in canonical order.
fn export_rows(
    contents: &Vec<ContentItem>,
    hs: &Vec<Highlight>,
    positions: &Vec<Option<i64>>,
    book_id: Option<&Vec<char>>,
) -> (r: Vec<usize>)
    requires
        positions_match(contents@, hs@, positions@),
    ensures
        is_export_order(contents@, hs@, match book_id {
            Some(b) => Some(b@),
            None => None,
        }, r@.map_values(|i: usize| i as int)),
{
    let ghost scope = match book_id {
        Some(b) => Some(b@),
        None => None,
    };
    let mut v: Vec<usize> = Vec::new();
    let mut n: usize = 0;
    while n < hs.len()
        invariant
            scope == match book_id {
                Some(b) => Some(b@),
                None => None,
            },
            n <= hs@.len(),
            forall|a: int, b: int| 0 <= a < b < v@.len() ==> #[trigger] v@[a] < #[trigger] v@[b],
            forall|a: int| 0 <= a < v@.len() ==> #[trigger] v@[a] < n && is_selected(hs@[v@[a] as int], scope),
            forall|i: int| 0 <= i < n && is_selected(#[trigger] hs@[i], scope) ==> v@.contains(i as usize),
        decreases hs.len() - n,
    {
        if selected(&hs[n], book_id) {
            let ghost before = v@;
            v.push(n);
            proof {
                assert forall|i: int| 0 <= i < n + 1 && is_selected(#[trigger] hs@[i], scope) implies v@.contains(i as usize) by {
                    lemma_contains_push(before, n, i as usize);
                }
            }
        }
        n = n + 1;
    }
    let r = sort_rows(contents, hs, positions, &v, 0, v.len());
    let total: usize = hs.len();
    assert(hs@.len() == total);
    let ghost out = r@.map_values(|i: usize| i as int);
    proof {
        assert(v@.subrange(0, v@.len() as int) =~= v@);
        assert forall|k: int| 0 <= k < out.len() implies 0 <= #[trigger] out[k] < hs@.len() && is_selected(hs@[out[k]], scope) by {
            assert(r@.contains(r@[k]));
            let m = choose|m: int| 0 <= m < v@.len() && v@[m] == r@[k];
        }
        assert forall|i: int| 0 <= i < hs@.len() && is_selected(#[trigger] hs@[i], scope) implies out.contains(i) by {
            assert(v@.contains(i as usize));
            assert(v@.subrange(0, v@.len() as int).contains(i as usize));
            assert(r@.contains(i as usize));
            let m = choose|m: int| 0 <= m < r@.len() && r@[m] == i as usize;
            assert(out[m] == i);
        }
        assert forall|k: int, l: int| 0 <= k < l < out.len() implies goes_before(contents@, hs@, #[trigger] out[k], #[trigger] out[l]) by {
            assert(goes_before(contents@, hs@, r@[k] as int, r@[l] as int));
        }
    }
    r
}

/// The selected rows in canonical order, and the bookmark made of each.
pub fn select_indexed(contents: &Vec<ContentItem>, hs: &Vec<Highlight>, book_id: Option<&String>) -> (r: (
    Vec<usize>,
    Vec<Bookmark>,
))
    ensures
        r.0@.map_values(|i: usize| i as int) == export_order(contents@, hs@, opt_ref_chars(book_id)),
        is_export_order(contents@, hs@, opt_ref_chars(book_id), r.0@.map_values(|i: usize| i as int)),
        r.1@.map_values(|b: Bookmark| b@) == export_stream(contents@, hs@, opt_ref_chars(book_id)),
{
    let ids = content_ids(contents);
    let owners = book_ids(contents);
    let indexes = (
        kind_index(contents, &ids, &owners, ContentKind::ChapterTitle),
        kind_index(contents, &ids, &owners, ContentKind::HighlightableUnit),
    );
    let (positions, titles) = resolve_all(contents, &ids, &owners, &indexes, hs);
    let scope: Option<Vec<char>> = match book_id {
        Some(b) => Some(chars_of(b)),
        None => None,
    };
    let rows = export_rows(contents, hs, &positions, scope.as_ref());
    let ghost order = rows@.map_values(|i: usize| i as int);
    proof {
        lemma_export_order_unique(contents@, hs@, opt_ref_chars(book_id), order);
    }
    let mut out: Vec<Bookmark> = Vec::new();
    let mut k: usize = 0;
    while k < rows.len()
        invariant
            k <= rows@.len(),
            order == rows@.map_values(|i: usize| i as int),
            is_export_order(contents@, hs@, opt_ref_chars(book_id), order),
            titles@.len() == hs@.len(),
            forall|i: int|
                0 <= i < hs@.len() ==> opt_chars(#[trigger] titles@[i]) == highlight_title(contents@, hs@[i].volume_id@, hs@[i].content_id@),
            out@.len() == k,
            forall|j: int| 0 <= j < k ==> #[trigger] out@[j]@ == resolved_bookmark(contents@, hs@[order[j]]),
        decreases rows.len() - k,
    {
        let row = rows[k];
        assert(order[k as int] == row as int);
        let h = &hs[row];
        let text = match &h.text {
            Some(t) => t.clone(),
            None => String::new(),
        };
        out.push(Bookmark {
            content_id: h.content_id.clone(),
            chapter_title: crate::model::clone_opt_string(&titles[row]),
            text,
        });
        k = k + 1;
    }
    assert(out@.map_values(|b: Bookmark| b@) =~= export_stream(contents@, hs@, opt_ref_chars(book_id)));
    (rows, out)
}

/// The highlights to export, of the book with content id `book_id` or of every
/// book, each joined with its chapter title, in canonical order.
pub fn select_bookmarks(contents: &Vec<ContentItem>, hs: &Vec<Highlight>, book_id: Option<&String>) -> (r: Vec<
    Bookmark,
>)
    ensures
        r@.map_values(|b: Bookmark| b@) == export_stream(contents@, hs@, opt_ref_chars(book_id)),
{
    select_indexed(contents, hs, book_id).1
}

} // verus!
