//! Folding an ordered highlight stream into chapters, and a whole-library
//! stream into books, by contiguous runs of equal titles: a title that comes
//! back after another one opens a new run.
use vstd::prelude::*;
use crate::model::{Bookmark, BookmarkView, Chapter, ChapterView, clone_opt_string, is_flat};

verus! {

/// The title a bookmark is grouped under; an unresolved one has the empty title.
pub open spec fn title_key(b: BookmarkView) -> Seq<char> {
    match b.chapter_title {
        Some(t) => t,
        None => Seq::empty(),
    }
}

/// Contiguous-run grouping, as a left fold over the stream: a bookmark joins
/// the last chapter when the titles agree, and opens a new chapter otherwise.
pub open spec fn group_runs(s: Seq<BookmarkView>) -> Seq<ChapterView>
    decreases s.len(),
{
    if s.len() == 0 {
        Seq::empty()
    } else {
        let prev = group_runs(s.drop_last());
        let b = s.last();
        if prev.len() > 0 && prev.last().title == title_key(b) {
            prev.update(
                prev.len() - 1,
                ChapterView { title: prev.last().title, bookmarks: prev.last().bookmarks.push(b) },
            )
        } else {
            prev.push(ChapterView { title: title_key(b), bookmarks: seq![b] })
        }
    }
}

/// The bookmarks of the chapters, chapter after chapter.
pub open spec fn flatten(cs: Seq<ChapterView>) -> Seq<BookmarkView>
    decreases cs.len(),
{
    if cs.len() == 0 {
        Seq::empty()
    } else {
        flatten(cs.drop_last()) + cs.last().bookmarks
    }
}

/// Contiguous-run grouping partitions the stream: reading the chapters in
/// order gives the stream back; every chapter is non-empty and holds only
/// bookmarks of its own title; and no chapter has the title of the one
/// before it, while equal titles further apart stay in separate chapters.
pub proof fn lemma_group_runs_partition(s: Seq<BookmarkView>)
    ensures
        flatten(group_runs(s)) == s,
        forall|i: int| 0 <= i < group_runs(s).len() ==> (#[trigger] group_runs(s)[i]).bookmarks.len() > 0,
        forall|i: int, j: int|
            0 <= i < group_runs(s).len() && 0 <= j < group_runs(s)[i].bookmarks.len() ==> title_key(
                #[trigger] group_runs(s)[i].bookmarks[j],
            ) == group_runs(s)[i].title,
        forall|i: int| 0 < i < group_runs(s).len() ==> (#[trigger] group_runs(s)[i]).title != group_runs(s)[i - 1].title,
    decreases s.len(),
{
    if s.len() > 0 {
        let t = s.drop_last();
        lemma_group_runs_partition(t);
        let prev = group_runs(t);
        let b = s.last();
        let cur = group_runs(s);
        if prev.len() > 0 && prev.last().title == title_key(b) {
            assert(cur.drop_last() =~= prev.drop_last());
            assert(flatten(prev) == flatten(prev.drop_last()) + prev.last().bookmarks);
            assert(flatten(cur) == flatten(cur.drop_last()) + cur.last().bookmarks);
            assert(cur.last().bookmarks == prev.last().bookmarks.push(b));
            assert(flatten(cur) =~= flatten(prev).push(b));
            assert(s =~= t.push(b));
            assert forall|i: int, j: int|
                0 <= i < cur.len() && 0 <= j < cur[i].bookmarks.len() implies title_key(
                #[trigger] cur[i].bookmarks[j],
            ) == cur[i].title by {
                if i < cur.len() - 1 {
                    assert(cur[i] == prev[i]);
                } else if j < prev.last().bookmarks.len() {
                    assert(cur[i].bookmarks[j] == prev.last().bookmarks[j]);
                    assert(prev[prev.len() - 1].bookmarks[j] == prev.last().bookmarks[j]);
                }
            }
            assert forall|i: int| 0 < i < cur.len() implies (#[trigger] cur[i]).title != cur[i - 1].title by {
                assert(cur[i - 1] == prev[i - 1]);
                if i < cur.len() - 1 {
                    assert(cur[i] == prev[i]);
                } else {
                    assert(prev[i].title == cur[i].title);
                }
            }
        } else {
            assert(cur.drop_last() =~= prev);
            assert(flatten(cur) =~= flatten(prev) + seq![b]);
            assert(s =~= t.push(b));
            assert(flatten(cur) =~= s);
            assert forall|i: int, j: int|
                0 <= i < cur.len() && 0 <= j < cur[i].bookmarks.len() implies title_key(
                #[trigger] cur[i].bookmarks[j],
            ) == cur[i].title by {
                if i < cur.len() - 1 {
                    assert(cur[i] == prev[i]);
                }
            }
            assert forall|i: int| 0 < i < cur.len() implies (#[trigger] cur[i]).title != cur[i - 1].title by {
                assert(cur[i - 1] == prev[i - 1]);
                if i < cur.len() - 1 {
                    assert(cur[i] == prev[i]);
                }
            }
        }
    }
}

pub open spec fn bookmark_views(s: Seq<Bookmark>) -> Seq<BookmarkView> {
    s.map_values(|b: Bookmark| b@)
}

pub open spec fn chapter_views(s: Seq<Chapter>) -> Seq<ChapterView> {
    s.map_values(|c: Chapter| c@)
}

pub open spec fn all_flat(s: Seq<Chapter>) -> bool {
    forall|i: int| 0 <= i < s.len() ==> is_flat(#[trigger] s[i])
}

pub fn clone_bookmark(b: &Bookmark) -> (r: Bookmark)
    ensures
        r@ == b@,
{
    Bookmark {
        content_id: b.content_id.clone(),
        chapter_title: clone_opt_string(&b.chapter_title),
        text: b.text.clone(),
    }
}

fn grouping_title(b: &Bookmark) -> (r: String)
    ensures
        r@ == title_key(b@),
{
    match &b.chapter_title {
        Some(t) => t.clone(),
        None => String::new(),
    }
}

/// Groups an ordered stream of bookmarks into chapters by contiguous runs of
/// equal chapter titles; an absent title counts as the empty one.
pub fn group_chapters(bookmarks: &Vec<Bookmark>) -> (r: Vec<Chapter>)
    ensures
        chapter_views(r@) == group_runs(bookmark_views(bookmarks@)),
        all_flat(r@),
{
    let ghost v = bookmark_views(bookmarks@);
    let mut chapters: Vec<Chapter> = Vec::new();
    let mut cur_title = String::new();
    let mut cur_marks: Vec<Bookmark> = Vec::new();
    let mut has_cur = false;
    let mut i: usize = 0;
    while i < bookmarks.len()
        invariant
            v == bookmark_views(bookmarks@),
            i <= bookmarks@.len(),
            has_cur == (i > 0),
            all_flat(chapters@),
            group_runs(v.take(i as int)) == if has_cur {
                chapter_views(chapters@).push(
                    ChapterView { title: cur_title@, bookmarks: bookmark_views(cur_marks@) },
                )
            } else {
                chapter_views(chapters@)
            },
        decreases bookmarks.len() - i,
    {
        let ghost prev = group_runs(v.take(i as int));
        assert(v.take(i + 1).drop_last() =~= v.take(i as int));
        assert(v.take(i + 1).last() == v[i as int]);
        let b = clone_bookmark(&bookmarks[i]);
        let key = grouping_title(&b);
        if has_cur && cur_title == key {
            let ghost before = cur_marks@;
            cur_marks.push(b);
            assert(bookmark_views(cur_marks@) =~= bookmark_views(before).push(v[i as int]));
        } else {
            if has_cur {
                let done = Chapter { title: cur_title, bookmarks: cur_marks, children: Vec::new() };
                let ghost before = chapters@;
                chapters.push(done);
                assert(chapter_views(chapters@) =~= chapter_views(before).push(done@));
            }
            cur_title = key;
            cur_marks = Vec::new();
            cur_marks.push(b);
            assert(bookmark_views(cur_marks@) =~= seq![v[i as int]]);
            has_cur = true;
        }
        i = i + 1;
    }
    if has_cur {
        let done = Chapter { title: cur_title, bookmarks: cur_marks, children: Vec::new() };
        let ghost before = chapters@;
        chapters.push(done);
        assert(chapter_views(chapters@) =~= chapter_views(before).push(done@));
    }
    assert(v.take(bookmarks@.len() as int) =~= v);
    chapters
}

/// Contiguous-run grouping of (book title, bookmark) pairs by book title.
pub open spec fn book_runs(s: Seq<(Seq<char>, BookmarkView)>) -> Seq<(Seq<char>, Seq<BookmarkView>)>
    decreases s.len(),
{
    if s.len() == 0 {
        Seq::empty()
    } else {
        let prev = book_runs(s.drop_last());
        let e = s.last();
        if prev.len() > 0 && prev.last().0 == e.0 {
            prev.update(prev.len() - 1, (e.0, prev.last().1.push(e.1)))
        } else {
            prev.push((e.0, seq![e.1]))
        }
    }
}

/// Each run of one book, with its bookmarks grouped into chapters.
pub open spec fn library_tree(s: Seq<(Seq<char>, BookmarkView)>) -> Seq<(Seq<char>, Seq<ChapterView>)> {
    book_runs(s).map_values(|r: (Seq<char>, Seq<BookmarkView>)| (r.0, group_runs(r.1)))
}

pub open spec fn entry_views(s: Seq<(String, Bookmark)>) -> Seq<(Seq<char>, BookmarkView)> {
    s.map_values(|e: (String, Bookmark)| (e.0@, e.1@))
}

pub open spec fn tree_views(s: Seq<(String, Vec<Chapter>)>) -> Seq<(Seq<char>, Seq<ChapterView>)> {
    s.map_values(|e: (String, Vec<Chapter>)| (e.0@, chapter_views(e.1@)))
}

pub open spec fn run_views(s: Seq<(String, Vec<Bookmark>)>) -> Seq<(Seq<char>, Seq<BookmarkView>)> {
    s.map_values(|e: (String, Vec<Bookmark>)| (e.0@, bookmark_views(e.1@)))
}

/// The bookmarks of the runs, run after run.
pub open spec fn flatten_runs(rs: Seq<(Seq<char>, Seq<BookmarkView>)>) -> Seq<BookmarkView>
    decreases rs.len(),
{
    if rs.len() == 0 {
        Seq::empty()
    } else {
        flatten_runs(rs.drop_last()) + rs.last().1
    }
}

/// Reading the book runs in order gives back the bookmarks of the stream.
pub proof fn lemma_book_runs_flatten(s: Seq<(Seq<char>, BookmarkView)>)
    ensures
        flatten_runs(book_runs(s)) == s.map_values(|e: (Seq<char>, BookmarkView)| e.1),
    decreases s.len(),
{
    if s.len() > 0 {
        let t = s.drop_last();
        lemma_book_runs_flatten(t);
        let prev = book_runs(t);
        let cur = book_runs(s);
        let b = s.last().1;
        assert(s.map_values(|e: (Seq<char>, BookmarkView)| e.1) =~= t.map_values(
            |e: (Seq<char>, BookmarkView)| e.1,
        ).push(b));
        if prev.len() > 0 && prev.last().0 == s.last().0 {
            assert(cur.drop_last() =~= prev.drop_last());
            assert(flatten_runs(prev) == flatten_runs(prev.drop_last()) + prev.last().1);
            assert(flatten_runs(cur) == flatten_runs(cur.drop_last()) + cur.last().1);
            assert(flatten_runs(cur) =~= flatten_runs(prev).push(b));
        } else {
            assert(cur.drop_last() =~= prev);
            assert(flatten_runs(cur) =~= flatten_runs(prev).push(b));
        }
    }
}

/// A bookmark of a chapter is one of the bookmarks of the chapters.
pub proof fn lemma_flatten_member(cs: Seq<ChapterView>, c: int, j: int)
    requires
        0 <= c < cs.len(),
        0 <= j < cs[c].bookmarks.len(),
    ensures
        flatten(cs).contains(cs[c].bookmarks[j]),
    decreases cs.len(),
{
    let f = flatten(cs.drop_last());
    if c == cs.len() - 1 {
        assert(flatten(cs)[f.len() + j] == cs[c].bookmarks[j]);
    } else {
        lemma_flatten_member(cs.drop_last(), c, j);
        let k = choose|k: int| 0 <= k < f.len() && f[k] == cs[c].bookmarks[j];
        assert(flatten(cs)[k] == f[k]);
    }
}

/// A bookmark of a run is one of the bookmarks of the runs.
pub proof fn lemma_flatten_runs_member(rs: Seq<(Seq<char>, Seq<BookmarkView>)>, r: int, j: int)
    requires
        0 <= r < rs.len(),
        0 <= j < rs[r].1.len(),
    ensures
        flatten_runs(rs).contains(rs[r].1[j]),
    decreases rs.len(),
{
    let f = flatten_runs(rs.drop_last());
    if r == rs.len() - 1 {
        assert(flatten_runs(rs)[f.len() + j] == rs[r].1[j]);
    } else {
        lemma_flatten_runs_member(rs.drop_last(), r, j);
        let k = choose|k: int| 0 <= k < f.len() && f[k] == rs[r].1[j];
        assert(flatten_runs(rs)[k] == f[k]);
    }
}

/// Splits (book title, bookmark) pairs into contiguous runs of one title.
fn split_book_runs(entries: &Vec<(String, Bookmark)>) -> (r: Vec<(String, Vec<Bookmark>)>)
    ensures
        run_views(r@) == book_runs(entry_views(entries@)),
{
    let ghost v = entry_views(entries@);
    let mut runs: Vec<(String, Vec<Bookmark>)> = Vec::new();
    let mut cur_title = String::new();
    let mut cur_marks: Vec<Bookmark> = Vec::new();
    let mut has_cur = false;
    let mut i: usize = 0;
    while i < entries.len()
        invariant
            v == entry_views(entries@),
            i <= entries@.len(),
            has_cur == (i > 0),
            book_runs(v.take(i as int)) == if has_cur {
                run_views(runs@).push((cur_title@, bookmark_views(cur_marks@)))
            } else {
                run_views(runs@)
            },
        decreases entries.len() - i,
    {
        assert(v.take(i + 1).drop_last() =~= v.take(i as int));
        assert(v.take(i + 1).last() == v[i as int]);
        let b = clone_bookmark(&entries[i].1);
        let key = entries[i].0.clone();
        if has_cur && cur_title == key {
            let ghost before = cur_marks@;
            cur_marks.push(b);
            assert(bookmark_views(cur_marks@) =~= bookmark_views(before).push(v[i as int].1));
        } else {
            if has_cur {
                let done = (cur_title, cur_marks);
                let ghost before = runs@;
                runs.push(done);
                assert(run_views(runs@) =~= run_views(before).push((done.0@, bookmark_views(done.1@))));
            }
            cur_title = key;
            cur_marks = Vec::new();
            cur_marks.push(b);
            assert(bookmark_views(cur_marks@) =~= seq![v[i as int].1]);
            has_cur = true;
        }
        i = i + 1;
    }
    if has_cur {
        let done = (cur_title, cur_marks);
        let ghost before = runs@;
        runs.push(done);
        assert(run_views(runs@) =~= run_views(before).push((done.0@, bookmark_views(done.1@))));
    }
    assert(v.take(entries@.len() as int) =~= v);
    runs
}

/// Groups a whole-library stream of (book title, bookmark) pairs into
/// contiguous runs of one book, each grouped into chapters.
pub fn group_by_book(entries: Vec<(String, Bookmark)>) -> (r: Vec<(String, Vec<Chapter>)>)
    ensures
        tree_views(r@) == library_tree(entry_views(entries@)),
        forall|i: int| 0 <= i < r@.len() ==> all_flat(#[trigger] r@[i].1@),
{
    let runs = split_book_runs(&entries);
    let ghost all = book_runs(entry_views(entries@));
    let mut out: Vec<(String, Vec<Chapter>)> = Vec::new();
    let mut k: usize = 0;
    while k < runs.len()
        invariant
            run_views(runs@) == all,
            k <= runs@.len(),
            out@.len() == k,
            forall|j: int|
                0 <= j < k ==> #[trigger] tree_views(out@)[j] == (all[j].0, group_runs(all[j].1)),
            forall|j: int| 0 <= j < k ==> all_flat(#[trigger] out@[j].1@),
        decreases runs.len() - k,
    {
        assert(run_views(runs@)[k as int] == (runs@[k as int].0@, bookmark_views(runs@[k as int].1@)));
        let chapters = group_chapters(&runs[k].1);
        let title = runs[k].0.clone();
        let ghost before = out@;
        out.push((title, chapters));
        assert forall|j: int| 0 <= j < k + 1 implies #[trigger] tree_views(out@)[j] == (
            all[j].0,
            group_runs(all[j].1),
        ) by {
            if j < k {
                assert(out@[j] == before[j]);
                assert(tree_views(before)[j] == (all[j].0, group_runs(all[j].1)));
            }
        }
        assert forall|j: int| 0 <= j < k + 1 implies all_flat(#[trigger] out@[j].1@) by {
            if j < k {
                assert(out@[j] == before[j]);
            }
        }
        k = k + 1;
    }
    assert(tree_views(out@) =~= library_tree(entry_views(entries@)));
    out
}

} // verus!
