//! Resolution of a unit of text to the chapter title it belongs to.
//!
//! A chapter-title row's id is the id of the unit it sits in plus a suffix
//! locating an anchor inside that unit, so a unit is first matched to a
//! chapter title of its book whose id extends its own (the smallest such id
//! when there are several). A unit with no such match takes the nearest
//! preceding chapter title of its book in reading order (the smallest id
//! among those at the same volume index). Only the rows' contents decide,
//! never their order, except between rows that agree on every one of these.
use vstd::prelude::*;
use crate::model::{ContentItem, ContentKind, opt_chars};
use crate::index::{find_exact, is_kind_index, key_lt, kind_index, lemma_key_order, lemma_sorted_keys, lower_bound, row_before, row_key};
use crate::text::{is_prefix, lex_lt, lemma_lex_irreflexive, lemma_lex_total, lemma_lex_transitive};
use crate::text::{lemma_between_prefix, lemma_prefix_not_less};
use crate::text::{chars_of, has_prefix, lex_less, same_chars};

verus! {

pub open spec fn is_candidate(c: ContentItem) -> bool {
    c.kind == ContentKind::ChapterTitle
}

/// Row `i` is a chapter title of book `book` related to `id` by prefix: its
/// id extends `id` or, when `anchored`, `id` extends its id (equality
/// included either way).
pub open spec fn prefix_hit(contents: Seq<ContentItem>, book: Seq<char>, id: Seq<char>, anchored: bool, i: int) -> bool {
    &&& 0 <= i < contents.len()
    &&& is_candidate(contents[i])
    &&& contents[i].book_id@ == book
    &&& if anchored {
        is_prefix(contents[i].content_id@, id)
    } else {
        is_prefix(id, contents[i].content_id@)
    }
}

/// Among the prefix hits below `n`, row `i` has the lexicographically smallest
/// id, and is the first row with that id.
pub open spec fn is_prefix_choice_upto(
    contents: Seq<ContentItem>,
    book: Seq<char>,
    id: Seq<char>,
    anchored: bool,
    n: int,
    i: int,
) -> bool {
    &&& i < n
    &&& prefix_hit(contents, book, id, anchored, i)
    &&& forall|j: int|
        0 <= j < n && #[trigger] prefix_hit(contents, book, id, anchored, j) ==> !lex_lt(
            contents[j].content_id@,
            contents[i].content_id@,
        ) && (contents[j].content_id@ == contents[i].content_id@ ==> i <= j)
}

pub open spec fn is_prefix_choice(contents: Seq<ContentItem>, book: Seq<char>, id: Seq<char>, anchored: bool, i: int) -> bool {
    is_prefix_choice_upto(contents, book, id, anchored, contents.len() as int, i)
}

/// The prefix hit that resolution picks, if there is one.
pub open spec fn prefix_choice(contents: Seq<ContentItem>, book: Seq<char>, id: Seq<char>, anchored: bool) -> Option<int> {
    if exists|i: int| is_prefix_choice(contents, book, id, anchored, i) {
        Some(choose|i: int| is_prefix_choice(contents, book, id, anchored, i))
    } else {
        None
    }
}

/// Row `i` is a chapter title of book `book_id` placed before `volume_index`.
pub open spec fn fallback_hit(contents: Seq<ContentItem>, book_id: Seq<char>, volume_index: i64, i: int) -> bool {
    &&& 0 <= i < contents.len()
    &&& is_candidate(contents[i])
    &&& contents[i].book_id@ == book_id
    &&& contents[i].volume_index < volume_index
}

/// Among the fallback hits below `n`, row `i` has the largest volume index;
/// among those, the smallest content id, and is the first row with that id.
pub open spec fn is_fallback_choice_upto(
    contents: Seq<ContentItem>,
    book_id: Seq<char>,
    volume_index: i64,
    n: int,
    i: int,
) -> bool {
    &&& i < n
    &&& fallback_hit(contents, book_id, volume_index, i)
    &&& forall|j: int|
        0 <= j < n && #[trigger] fallback_hit(contents, book_id, volume_index, j)
            ==> contents[j].volume_index <= contents[i].volume_index && (contents[j].volume_index
            == contents[i].volume_index ==> !lex_lt(contents[j].content_id@, contents[i].content_id@) && (
            contents[j].content_id@ == contents[i].content_id@ ==> i <= j))
}

pub open spec fn is_fallback_choice(contents: Seq<ContentItem>, book_id: Seq<char>, volume_index: i64, i: int) -> bool {
    is_fallback_choice_upto(contents, book_id, volume_index, contents.len() as int, i)
}

/// The nearest preceding chapter title, if there is one.
pub open spec fn fallback_choice(contents: Seq<ContentItem>, book_id: Seq<char>, volume_index: i64) -> Option<int> {
    if exists|i: int| is_fallback_choice(contents, book_id, volume_index, i) {
        Some(choose|i: int| is_fallback_choice(contents, book_id, volume_index, i))
    } else {
        None
    }
}

pub open spec fn title_at(contents: Seq<ContentItem>, o: Option<int>) -> Option<Seq<char>> {
    match o {
        Some(i) => Some(contents[i].title@),
        None => None,
    }
}

/// The chapter-title row of a unit with id `id` in book `book_id` at
/// `volume_index`: the prefix match if there is one, else the ordinal
/// fallback, else none.
pub open spec fn chapter_row_of(
    contents: Seq<ContentItem>,
    id: Seq<char>,
    book_id: Seq<char>,
    volume_index: i64,
) -> Option<int> {
    match prefix_choice(contents, book_id, id, false) {
        Some(i) => Some(i),
        None => fallback_choice(contents, book_id, volume_index),
    }
}

/// The title of `chapter_row_of`.
pub open spec fn chapter_title_of(
    contents: Seq<ContentItem>,
    id: Seq<char>,
    book_id: Seq<char>,
    volume_index: i64,
) -> Option<Seq<char>> {
    title_at(contents, chapter_row_of(contents, id, book_id, volume_index))
}

pub open spec fn resolved_title(contents: Seq<ContentItem>, target: ContentItem) -> Option<Seq<char>> {
    chapter_title_of(contents, target.content_id@, target.book_id@, target.volume_index)
}

/// `ids` holds the characters of each row's content id.
pub open spec fn ids_match(contents: Seq<ContentItem>, ids: Seq<Vec<char>>) -> bool {
    &&& ids.len() == contents.len()
    &&& forall|i: int| 0 <= i < ids.len() ==> #[trigger] ids[i]@ == contents[i].content_id@
}

/// `book_ids` holds the characters of each row's owning book id.
pub open spec fn book_ids_match(contents: Seq<ContentItem>, book_ids: Seq<Vec<char>>) -> bool {
    &&& book_ids.len() == contents.len()
    &&& forall|i: int| 0 <= i < book_ids.len() ==> #[trigger] book_ids[i]@ == contents[i].book_id@
}

pub open spec fn as_index(o: Option<usize>) -> Option<int> {
    match o {
        Some(i) => Some(i as int),
        None => None,
    }
}

proof fn lemma_prefix_choice_unique(contents: Seq<ContentItem>, book: Seq<char>, id: Seq<char>, anchored: bool, i: int, k: int)
    requires
        is_prefix_choice(contents, book, id, anchored, i),
        is_prefix_choice(contents, book, id, anchored, k),
    ensures
        i == k,
{
    let a = contents[i].content_id@;
    let b = contents[k].content_id@;
    assert(prefix_hit(contents, book, id, anchored, i));
    assert(prefix_hit(contents, book, id, anchored, k));
    if a != b {
        lemma_lex_total(a, b);
    }
}

/// Extends a choice below `n` to one below `n + 1`.
proof fn lemma_prefix_choice_step(contents: Seq<ContentItem>, book: Seq<char>, id: Seq<char>, anchored: bool, n: int, i: int)
    requires
        0 <= n < contents.len(),
        is_prefix_choice_upto(contents, book, id, anchored, n, i),
        prefix_hit(contents, book, id, anchored, n),
    ensures
        lex_lt(contents[n].content_id@, contents[i].content_id@) ==> is_prefix_choice_upto(contents, book, id, anchored,
            n + 1,
            n,
        ),
        !lex_lt(contents[n].content_id@, contents[i].content_id@) ==> is_prefix_choice_upto(contents, book, id, anchored,
            n + 1,
            i,
        ),
{
    let cn = contents[n].content_id@;
    let ci = contents[i].content_id@;
    if lex_lt(cn, ci) {
        assert forall|j: int| 0 <= j < n + 1 && #[trigger] prefix_hit(contents, book, id, anchored, j) implies !lex_lt(
            contents[j].content_id@,
            cn,
        ) && (contents[j].content_id@ == cn ==> n <= j) by {
            if j < n {
                if lex_lt(contents[j].content_id@, cn) {
                    lemma_lex_transitive(contents[j].content_id@, cn, ci);
                }
                if contents[j].content_id@ == cn {
                    assert(lex_lt(contents[j].content_id@, ci));
                }
            } else {
                lemma_lex_irreflexive(cn);
            }
        }
    } else {
        if cn == ci {
            assert(i <= n);
        }
    }
}

/// A prefix hit below `n` gives a choice below `n`.
proof fn lemma_prefix_choice_exists(contents: Seq<ContentItem>, book: Seq<char>, id: Seq<char>, anchored: bool, n: int, h: int)
    requires
        0 <= h < n <= contents.len(),
        prefix_hit(contents, book, id, anchored, h),
    ensures
        exists|i: int| is_prefix_choice_upto(contents, book, id, anchored, n, i),
    decreases n,
{
    let m = n - 1;
    if exists|k: int| 0 <= k < m && prefix_hit(contents, book, id, anchored, k) {
        let k = choose|k: int| 0 <= k < m && prefix_hit(contents, book, id, anchored, k);
        lemma_prefix_choice_exists(contents, book, id, anchored, m, k);
        let i = choose|i: int| is_prefix_choice_upto(contents, book, id, anchored, m, i);
        if prefix_hit(contents, book, id, anchored, m) {
            lemma_prefix_choice_step(contents, book, id, anchored, m, i);
            if lex_lt(contents[m].content_id@, contents[i].content_id@) {
                assert(is_prefix_choice_upto(contents, book, id, anchored, n, m));
            } else {
                assert(is_prefix_choice_upto(contents, book, id, anchored, n, i));
            }
        } else {
            assert(is_prefix_choice_upto(contents, book, id, anchored, n, i));
        }
    } else {
        assert(h == m);
        lemma_lex_irreflexive(contents[m].content_id@);
        assert(is_prefix_choice_upto(contents, book, id, anchored, n, m));
    }
}

/// The choice is a hit, and there is one exactly when some row is a hit.
pub proof fn lemma_prefix_choice(contents: Seq<ContentItem>, book: Seq<char>, id: Seq<char>, anchored: bool)
    ensures
        match prefix_choice(contents, book, id, anchored) {
            Some(i) => is_prefix_choice(contents, book, id, anchored, i),
            None => forall|j: int| !#[trigger] prefix_hit(contents, book, id, anchored, j),
        },
{
    if exists|j: int| prefix_hit(contents, book, id, anchored, j) {
        let j = choose|j: int| prefix_hit(contents, book, id, anchored, j);
        lemma_prefix_choice_exists(contents, book, id, anchored, contents.len() as int, j);
        let i = choose|i: int| is_prefix_choice_upto(contents, book, id, anchored, contents.len() as int, i);
        assert(is_prefix_choice(contents, book, id, anchored, i));
    } else {
        assert forall|i: int| !is_prefix_choice(contents, book, id, anchored, i) by {
            if is_prefix_choice(contents, book, id, anchored, i) {
                assert(prefix_hit(contents, book, id, anchored, i));
            }
        }
    }
}

proof fn lemma_fallback_choice_unique(contents: Seq<ContentItem>, book_id: Seq<char>, vi: i64, i: int, k: int)
    requires
        is_fallback_choice(contents, book_id, vi, i),
        is_fallback_choice(contents, book_id, vi, k),
    ensures
        i == k,
{
    assert(fallback_hit(contents, book_id, vi, i));
    assert(fallback_hit(contents, book_id, vi, k));
    let (a, b) = (contents[i].content_id@, contents[k].content_id@);
    if a != b {
        lemma_lex_total(a, b);
    }
}

proof fn lemma_fallback_choice_exists(contents: Seq<ContentItem>, book_id: Seq<char>, vi: i64, n: int, h: int)
    requires
        0 <= h < n <= contents.len(),
        fallback_hit(contents, book_id, vi, h),
    ensures
        exists|i: int| is_fallback_choice_upto(contents, book_id, vi, n, i),
    decreases n,
{
    let m = n - 1;
    if exists|k: int| 0 <= k < m && fallback_hit(contents, book_id, vi, k) {
        let k = choose|k: int| 0 <= k < m && fallback_hit(contents, book_id, vi, k);
        lemma_fallback_choice_exists(contents, book_id, vi, m, k);
        let i = choose|i: int| is_fallback_choice_upto(contents, book_id, vi, m, i);
        let (cm, ci) = (contents[m].content_id@, contents[i].content_id@);
        if fallback_hit(contents, book_id, vi, m) && (contents[i].volume_index < contents[m].volume_index || (
        contents[i].volume_index == contents[m].volume_index && lex_lt(cm, ci))) {
            assert forall|j: int| 0 <= j < n && #[trigger] fallback_hit(contents, book_id, vi, j) implies contents[j].volume_index
                <= contents[m].volume_index && (contents[j].volume_index == contents[m].volume_index ==> !lex_lt(
                contents[j].content_id@,
                cm,
            ) && (contents[j].content_id@ == cm ==> m <= j)) by {
                if j < m && contents[j].volume_index == contents[m].volume_index {
                    let cj = contents[j].content_id@;
                    if lex_lt(cj, cm) {
                        lemma_lex_transitive(cj, cm, ci);
                    }
                    if cj == cm {
                        assert(lex_lt(cj, ci));
                    }
                } else if j == m {
                    lemma_lex_irreflexive(cm);
                }
            }
            assert(is_fallback_choice_upto(contents, book_id, vi, n, m));
        } else {
            assert(is_fallback_choice_upto(contents, book_id, vi, n, i));
        }
    } else {
        assert(h == m);
        lemma_lex_irreflexive(contents[m].content_id@);
        assert(is_fallback_choice_upto(contents, book_id, vi, n, m));
    }
}

/// The choice is a hit, and there is one exactly when some row is a hit.
pub proof fn lemma_fallback_choice(contents: Seq<ContentItem>, book_id: Seq<char>, vi: i64)
    ensures
        match fallback_choice(contents, book_id, vi) {
            Some(i) => is_fallback_choice(contents, book_id, vi, i),
            None => forall|j: int| !#[trigger] fallback_hit(contents, book_id, vi, j),
        },
{
    if exists|j: int| fallback_hit(contents, book_id, vi, j) {
        let j = choose|j: int| fallback_hit(contents, book_id, vi, j);
        lemma_fallback_choice_exists(contents, book_id, vi, contents.len() as int, j);
        let i = choose|i: int| is_fallback_choice_upto(contents, book_id, vi, contents.len() as int, i);
        assert(is_fallback_choice(contents, book_id, vi, i));
    } else {
        assert forall|i: int| !is_fallback_choice(contents, book_id, vi, i) by {
            if is_fallback_choice(contents, book_id, vi, i) {
                assert(fallback_hit(contents, book_id, vi, i));
            }
        }
    }
}

/// The characters of each row's content id.
pub fn content_ids(contents: &Vec<ContentItem>) -> (r: Vec<Vec<char>>)
    ensures
        ids_match(contents@, r@),
{
    let mut r: Vec<Vec<char>> = Vec::new();
    let mut k: usize = 0;
    while k < contents.len()
        invariant
            k <= contents.len(),
            r@.len() == k,
            forall|i: int| 0 <= i < k ==> #[trigger] r@[i]@ == contents@[i].content_id@,
        decreases contents.len() - k,
    {
        r.push(chars_of(&contents[k].content_id));
        k = k + 1;
    }
    r
}

/// The characters of each row's owning book id.
pub fn book_ids(contents: &Vec<ContentItem>) -> (r: Vec<Vec<char>>)
    ensures
        book_ids_match(contents@, r@),
{
    let mut r: Vec<Vec<char>> = Vec::new();
    let mut k: usize = 0;
    while k < contents.len()
        invariant
            k <= contents.len(),
            r@.len() == k,
            forall|i: int| 0 <= i < k ==> #[trigger] r@[i]@ == contents@[i].book_id@,
        decreases contents.len() - k,
    {
        r.push(chars_of(&contents[k].book_id));
        k = k + 1;
    }
    r
}

/// The chapter-title row of book `book` whose id extends `id`, as
/// `prefix_choice` picks it, found by binary search in the index of
/// chapter-title rows.
pub fn find_extension(
    contents: &Vec<ContentItem>,
    ids: &Vec<Vec<char>>,
    owners: &Vec<Vec<char>>,
    titles: &Vec<usize>,
    book: &Vec<char>,
    id: &Vec<char>,
) -> (r: Option<usize>)
    requires
        ids_match(contents@, ids@),
        book_ids_match(contents@, owners@),
        is_kind_index(contents@, ContentKind::ChapterTitle, titles@),
    ensures
        as_index(r) == prefix_choice(contents@, book@, id@, false),
{
    let ghost target = (book@, id@);
    let rows: usize = contents.len();
    assert(contents@.len() == rows);
    let q = lower_bound(contents, ids, owners, titles, book, id);
    let found = q < titles.len() && {
        assert(ids@[titles@[q as int] as int]@ == contents@[titles@[q as int] as int].content_id@);
        assert(owners@[titles@[q as int] as int]@ == contents@[titles@[q as int] as int].book_id@);
        same_chars(&owners[titles[q]], book) && has_prefix(id, &ids[titles[q]])
    };
    proof {
        lemma_lex_irreflexive(book@);
        lemma_prefix_choice(contents@, book@, id@, false);
        // Every hit lies at or after position q.
        assert forall|j: int| #[trigger] prefix_hit(contents@, book@, id@, false, j) implies exists|m: int|
            q <= m < titles@.len() && titles@[m] == j as usize by {
            assert(titles@.contains(j as usize));
            let m = choose|m: int| 0 <= m < titles@.len() && titles@[m] == j as usize;
            lemma_prefix_not_less(id@, contents@[j].content_id@);
            if m < q {
                assert(key_lt(row_key(contents@[titles@[m] as int]), target));
            }
            assert(q <= m < titles@.len() && titles@[m] == j as usize);
        }
    }
    if found {
        let c = titles[q];
        proof {
            let cid = contents@[c as int].content_id@;
            assert forall|j: int| 0 <= j < contents@.len() && #[trigger] prefix_hit(contents@, book@, id@, false, j) implies !lex_lt(
                contents@[j].content_id@,
                cid,
            ) && (contents@[j].content_id@ == cid ==> c <= j) by {
                let m = choose|m: int| q <= m < titles@.len() && titles@[m] == j as usize;
                let (kc, kj) = (row_key(contents@[c as int]), row_key(contents@[j]));
                lemma_key_order(kc, kj, kc);
                lemma_sorted_keys(contents@, titles@, q as int, m);
                if m > q {
                    assert(row_before(contents@, titles@[q as int] as int, titles@[m] as int));
                }
            }
            assert(is_prefix_choice(contents@, book@, id@, false, c as int));
            let other = choose|i: int| is_prefix_choice(contents@, book@, id@, false, i);
            lemma_prefix_choice_unique(contents@, book@, id@, false, c as int, other);
        }
        Some(c)
    } else {
        proof {
            assert forall|j: int| !#[trigger] prefix_hit(contents@, book@, id@, false, j) by {
                if prefix_hit(contents@, book@, id@, false, j) {
                    let m = choose|m: int| q <= m < titles@.len() && titles@[m] == j as usize;
                    lemma_sorted_keys(contents@, titles@, q as int, m);
                    let x = row_key(contents@[titles@[q as int] as int]);
                    let kj = row_key(contents@[j]);
                    assert(!key_lt(x, target));
                    assert(!key_lt(kj, x));
                    if x.0 != book@ {
                        lemma_lex_total(x.0, book@);
                    }
                    lemma_between_prefix(id@, x.1, contents@[j].content_id@);
                }
            }
            lemma_prefix_choice(contents@, book@, id@, false);
        }
        None
    }
}

/// The chapter-title row of book `book` whose id `id` extends, as
/// `prefix_choice` picks it: the shortest such id is the smallest, so the
/// prefixes of `id` are looked up from the shortest.
pub fn find_anchor(
    contents: &Vec<ContentItem>,
    ids: &Vec<Vec<char>>,
    owners: &Vec<Vec<char>>,
    titles: &Vec<usize>,
    book: &Vec<char>,
    id: &Vec<char>,
) -> (r: Option<usize>)
    requires
        ids_match(contents@, ids@),
        book_ids_match(contents@, owners@),
        is_kind_index(contents@, ContentKind::ChapterTitle, titles@),
    ensures
        as_index(r) == prefix_choice(contents@, book@, id@, true),
{
    let mut pre: Vec<char> = Vec::new();
    let mut k: usize = 0;
    assert(pre@ =~= id@.subrange(0, 0));
    let mut hit = find_exact(contents, ids, owners, titles, ContentKind::ChapterTitle, book, &pre);
    while hit.is_none() && k < id.len()
        invariant
            ids_match(contents@, ids@),
            book_ids_match(contents@, owners@),
            is_kind_index(contents@, ContentKind::ChapterTitle, titles@),
            k <= id@.len(),
            pre@ == id@.subrange(0, k as int),
            forall|j: int|
                0 <= j < contents@.len() && is_candidate(#[trigger] contents@[j]) && contents@[j].book_id@ == book@
                    && is_prefix(contents@[j].content_id@, id@) ==> contents@[j].content_id@.len() >= k,
            match hit {
                Some(c) => c < contents@.len() && is_candidate(contents@[c as int]) && row_key(contents@[c as int]) == (
                    book@,
                    pre@,
                ) && forall|j: int|
                    0 <= j < contents@.len() && is_candidate(#[trigger] contents@[j]) && row_key(contents@[j]) == (
                        book@,
                        pre@,
                    ) ==> c <= j,
                None => forall|j: int|
                    0 <= j < contents@.len() && is_candidate(#[trigger] contents@[j]) ==> row_key(contents@[j]) != (
                        book@,
                        pre@,
                    ),
            },
        decreases id@.len() - k,
    {
        proof {
            assert forall|j: int|
                0 <= j < contents@.len() && is_candidate(#[trigger] contents@[j]) && contents@[j].book_id@ == book@
                    && is_prefix(contents@[j].content_id@, id@) implies contents@[j].content_id@.len() >= k + 1 by {
                let jid = contents@[j].content_id@;
                if jid.len() == k {
                    assert(jid =~= pre@);
                    assert(row_key(contents@[j]) == (book@, pre@));
                }
            }
        }
        pre.push(id[k]);
        k = k + 1;
        assert(pre@ =~= id@.subrange(0, k as int));
        hit = find_exact(contents, ids, owners, titles, ContentKind::ChapterTitle, book, &pre);
    }
    proof {
        lemma_prefix_choice(contents@, book@, id@, true);
        match hit {
            Some(c) => {
                let cid = contents@[c as int].content_id@;
                assert(is_prefix(cid, id@));
                assert forall|j: int| 0 <= j < contents@.len() && #[trigger] prefix_hit(contents@, book@, id@, true, j) implies !lex_lt(
                    contents@[j].content_id@,
                    cid,
                ) && (contents@[j].content_id@ == cid ==> c <= j) by {
                    let jid = contents@[j].content_id@;
                    assert(is_candidate(contents@[j]));
                    assert(is_prefix(cid, jid)) by {
                        assert(jid.subrange(0, k as int) =~= id@.subrange(0, k as int));
                    }
                    lemma_prefix_not_less(cid, jid);
                    if jid == cid {
                        assert(row_key(contents@[j]) == (book@, pre@));
                    }
                }
                assert(is_prefix_choice(contents@, book@, id@, true, c as int));
                let other = choose|i: int| is_prefix_choice(contents@, book@, id@, true, i);
                lemma_prefix_choice_unique(contents@, book@, id@, true, c as int, other);
            },
            None => {
                assert(pre@ =~= id@);
                assert forall|j: int| !#[trigger] prefix_hit(contents@, book@, id@, true, j) by {
                    if prefix_hit(contents@, book@, id@, true, j) {
                        assert(is_candidate(contents@[j]));
                        assert(contents@[j].content_id@ =~= id@);
                        assert(row_key(contents@[j]) == (book@, pre@));
                    }
                }
            },
        }
    }
    hit
}

/// Row `j` is no better a fallback than row `i`.
pub open spec fn fallback_no_better(contents: Seq<ContentItem>, j: int, i: int) -> bool {
    contents[j].volume_index <= contents[i].volume_index && (contents[j].volume_index == contents[i].volume_index
        ==> !lex_lt(contents[j].content_id@, contents[i].content_id@) && (contents[j].content_id@
        == contents[i].content_id@ ==> i <= j))
}

/// Whether the row at position `k` of the index belongs to book `book_id`.
fn owned_by(contents: &Vec<ContentItem>, owners: &Vec<Vec<char>>, titles: &Vec<usize>, k: usize, book_id: &Vec<char>) -> (r:
    bool)
    requires
        book_ids_match(contents@, owners@),
        is_kind_index(contents@, ContentKind::ChapterTitle, titles@),
        k < titles@.len(),
    ensures
        r == (contents@[titles@[k as int] as int].book_id@ == book_id@),
{
    assert(owners@[titles@[k as int] as int]@ == contents@[titles@[k as int] as int].book_id@);
    same_chars(&owners[titles[k]], book_id)
}

/// The chapter-title row that `fallback_choice` picks, found by scanning the
/// rows of book `book_id` in the index of chapter-title rows.
pub fn find_preceding_title(
    contents: &Vec<ContentItem>,
    ids: &Vec<Vec<char>>,
    owners: &Vec<Vec<char>>,
    titles: &Vec<usize>,
    book_id: &Vec<char>,
    volume_index: i64,
) -> (r: Option<usize>)
    requires
        ids_match(contents@, ids@),
        book_ids_match(contents@, owners@),
        is_kind_index(contents@, ContentKind::ChapterTitle, titles@),
    ensures
        as_index(r) == fallback_choice(contents@, book_id@, volume_index),
{
    let rows: usize = contents.len();
    assert(contents@.len() == rows);
    let empty: Vec<char> = Vec::new();
    let ghost origin = (book_id@, empty@);
    let start = lower_bound(contents, ids, owners, titles, book_id, &empty);
    let mut best: Option<usize> = None;
    let mut k: usize = start;
    while k < titles.len() && owned_by(contents, owners, titles, k, book_id)
        invariant
            ids_match(contents@, ids@),
            book_ids_match(contents@, owners@),
            is_kind_index(contents@, ContentKind::ChapterTitle, titles@),
            start <= k <= titles@.len(),
            match best {
                Some(i) => fallback_hit(contents@, book_id@, volume_index, i as int) && forall|m: int|
                    start <= m < k && #[trigger] fallback_hit(contents@, book_id@, volume_index, titles@[m] as int)
                        ==> fallback_no_better(contents@, titles@[m] as int, i as int),
                None => forall|m: int|
                    start <= m < k ==> !#[trigger] fallback_hit(contents@, book_id@, volume_index, titles@[m] as int),
            },
        decreases titles.len() - k,
    {
        let x = titles[k];
        if contents[x].volume_index < volume_index {
            assert(fallback_hit(contents@, book_id@, volume_index, x as int));
            match best {
                None => {
                    proof {
                        lemma_lex_irreflexive(contents@[x as int].content_id@);
                    }
                    best = Some(x);
                },
                Some(i) => {
                    assert(ids@[x as int]@ == contents@[x as int].content_id@);
                    assert(ids@[i as int]@ == contents@[i as int].content_id@);
                    let ghost cx = contents@[x as int].content_id@;
                    let ghost ci = contents@[i as int].content_id@;
                    let better = contents[i].volume_index < contents[x].volume_index || (contents[i].volume_index
                        == contents[x].volume_index && (lex_less(&ids[x], &ids[i]) || (x < i && same_chars(
                        &ids[x],
                        &ids[i],
                    ))));
                    if better {
                        proof {
                            lemma_lex_irreflexive(cx);
                            assert forall|m: int|
                                start <= m < k + 1 && #[trigger] fallback_hit(contents@, book_id@, volume_index, titles@[m] as int)
                                    implies fallback_no_better(contents@, titles@[m] as int, x as int) by {
                                if m < k {
                                    let cm = contents@[titles@[m] as int].content_id@;
                                    assert(fallback_no_better(contents@, titles@[m] as int, i as int));
                                    if lex_lt(cm, cx) && lex_lt(cx, ci) {
                                        lemma_lex_transitive(cm, cx, ci);
                                    }
                                }
                            }
                        }
                        best = Some(x);
                    } else {
                        proof {
                            if cx == ci && x != i && contents@[x as int].volume_index == contents@[i as int].volume_index {
                                assert(i < x);
                            }
                            if x == i {
                                lemma_lex_irreflexive(cx);
                            }
                            assert(fallback_no_better(contents@, x as int, i as int));
                        }
                    }
                },
            }
        }
        k = k + 1;
    }
    proof {
        // Every hit lies in positions start..k of the index.
        lemma_lex_irreflexive(book_id@);
        assert forall|j: int| #[trigger] fallback_hit(contents@, book_id@, volume_index, j) implies exists|m: int|
            start <= m < k && titles@[m] as int == j by {
            assert(contents@[j].kind == ContentKind::ChapterTitle);
            assert(titles@.contains(j as usize));
            let m = choose|m: int| 0 <= m < titles@.len() && titles@[m] == j as usize;
            assert(titles@[m] as int == j);
            let kj = row_key(contents@[j]);
            assert(!lex_lt(kj.1, empty@));
            if m < start {
                assert(key_lt(row_key(contents@[titles@[m] as int]), origin));
            }
            if m >= k {
                let kk = row_key(contents@[titles@[k as int] as int]);
                assert(!key_lt(kk, origin));
                lemma_sorted_keys(contents@, titles@, k as int, m);
                if kk.0 != book_id@ {
                    lemma_lex_total(kk.0, book_id@);
                }
            }
            assert(start <= m < k && titles@[m] as int == j);
        }
        lemma_fallback_choice(contents@, book_id@, volume_index);
        match best {
            Some(i) => {
                assert forall|j: int|
                    0 <= j < contents@.len() && #[trigger] fallback_hit(contents@, book_id@, volume_index, j) implies fallback_no_better(
                    contents@,
                    j,
                    i as int,
                ) by {
                    let m = choose|m: int| start <= m < k && titles@[m] as int == j;
                    assert(fallback_hit(contents@, book_id@, volume_index, titles@[m] as int));
                }
                assert(is_fallback_choice(contents@, book_id@, volume_index, i as int));
                let c = choose|c: int| is_fallback_choice(contents@, book_id@, volume_index, c);
                lemma_fallback_choice_unique(contents@, book_id@, volume_index, i as int, c);
            },
            None => {
                assert forall|j: int| !#[trigger] fallback_hit(contents@, book_id@, volume_index, j) by {
                    if fallback_hit(contents@, book_id@, volume_index, j) {
                        let m = choose|m: int| start <= m < k && titles@[m] as int == j;
                        assert(!fallback_hit(contents@, book_id@, volume_index, titles@[m] as int));
                    }
                }
            },
        }
    }
    best
}

/// The chapter-title row of a unit with id `id`, of book `book_id`, at
/// `volume_index`: see `chapter_row_of`.
pub fn chapter_row_for(
    contents: &Vec<ContentItem>,
    ids: &Vec<Vec<char>>,
    owners: &Vec<Vec<char>>,
    titles: &Vec<usize>,
    id: &Vec<char>,
    book_id: &Vec<char>,
    volume_index: i64,
) -> (r: Option<usize>)
    requires
        ids_match(contents@, ids@),
        book_ids_match(contents@, owners@),
        is_kind_index(contents@, ContentKind::ChapterTitle, titles@),
    ensures
        as_index(r) == chapter_row_of(contents@, id@, book_id@, volume_index),
{
    match find_extension(contents, ids, owners, titles, book_id, id) {
        Some(i) => Some(i),
        None => find_preceding_title(contents, ids, owners, titles, book_id, volume_index),
    }
}

/// Resolves `target` to the title of its chapter among the chapter-title rows
/// of `contents`: a chapter title of its book whose id extends its id, else
/// the nearest preceding chapter title of its book, else `None`.
pub fn resolve_chapter_title(contents: &Vec<ContentItem>, target: &ContentItem) -> (r: Option<String>)
    ensures
        opt_chars(r) == resolved_title(contents@, *target),
{
    let ids = content_ids(contents);
    let owners = book_ids(contents);
    let titles = kind_index(contents, &ids, &owners, ContentKind::ChapterTitle);
    let id = chars_of(&target.content_id);
    let book_id = chars_of(&target.book_id);
    match chapter_row_for(contents, &ids, &owners, &titles, &id, &book_id, target.volume_index) {
        Some(i) => Some(contents[i].title.clone()),
        None => None,
    }
}

/// When a chapter title of the unit's book has an id extending the unit's id,
/// the unit resolves to such a chapter title, whatever an earlier chapter
/// title of the book would give; when it is the only one, to its title.
pub proof fn lemma_prefix_match_precedence(
    contents: Seq<ContentItem>,
    id: Seq<char>,
    book_id: Seq<char>,
    volume_index: i64,
    i: int,
)
    requires
        prefix_hit(contents, book_id, id, false, i),
    ensures
        exists|k: int|
            prefix_hit(contents, book_id, id, false, k) && chapter_title_of(contents, id, book_id, volume_index)
                == Some(#[trigger] contents[k].title@),
        (forall|j: int| prefix_hit(contents, book_id, id, false, j) ==> j == i) ==> chapter_title_of(
            contents,
            id,
            book_id,
            volume_index,
        ) == Some(contents[i].title@),
{
    lemma_prefix_choice(contents, book_id, id, false);
    let k = prefix_choice(contents, book_id, id, false)->0;
    assert(prefix_hit(contents, book_id, id, false, k));
}

/// With no prefix match, a unit resolves to the chapter title of its book with
/// the largest volume index below its own, and to none when there is no such one.
pub proof fn lemma_ordinal_fallback(
    contents: Seq<ContentItem>,
    id: Seq<char>,
    book_id: Seq<char>,
    volume_index: i64,
)
    requires
        forall|j: int| !#[trigger] prefix_hit(contents, book_id, id, false, j),
    ensures
        match chapter_title_of(contents, id, book_id, volume_index) {
            Some(t) => exists|k: int|
                #[trigger] fallback_hit(contents, book_id, volume_index, k) && t == contents[k].title@
                    && forall|j: int|
                    #[trigger] fallback_hit(contents, book_id, volume_index, j)
                        ==> contents[j].volume_index <= contents[k].volume_index,
            None => forall|j: int| !#[trigger] fallback_hit(contents, book_id, volume_index, j),
        },
{
    lemma_prefix_choice(contents, book_id, id, false);
    lemma_fallback_choice(contents, book_id, volume_index);
    if let Some(k) = fallback_choice(contents, book_id, volume_index) {
        assert(fallback_hit(contents, book_id, volume_index, k));
    }
}

/// A unit with no prefix match that precedes every chapter title of its book
/// in reading order resolves to none.
pub proof fn lemma_no_preceding_title(
    contents: Seq<ContentItem>,
    id: Seq<char>,
    book_id: Seq<char>,
    volume_index: i64,
)
    requires
        forall|j: int| !#[trigger] prefix_hit(contents, book_id, id, false, j),
        forall|j: int|
            0 <= j < contents.len() && is_candidate(#[trigger] contents[j]) && contents[j].book_id@ == book_id
                ==> volume_index <= contents[j].volume_index,
    ensures
        chapter_title_of(contents, id, book_id, volume_index) is None,
{
    lemma_prefix_choice(contents, book_id, id, false);
    lemma_fallback_choice(contents, book_id, volume_index);
    if let Some(k) = fallback_choice(contents, book_id, volume_index) {
        assert(fallback_hit(contents, book_id, volume_index, k));
    }
}

} // verus!
