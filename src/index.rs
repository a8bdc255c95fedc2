//! Rows of one kind, sorted by owning book then content id, for lookups by
//! binary search.
use vstd::prelude::*;
use crate::model::{ContentItem, ContentKind};
use crate::resolve::{book_ids_match, ids_match};
use crate::text::{
    lemma_lex_asymmetric, lemma_lex_irreflexive, lemma_lex_total, lemma_lex_transitive, lex_less,
    lex_lt, same_chars,
};

verus! {

/// What rows are sorted and looked up by: the owning book, then the content id.
pub open spec fn row_key(c: ContentItem) -> (Seq<char>, Seq<char>) {
    (c.book_id@, c.content_id@)
}

/// Lexicographic order on (book id, content id).
pub open spec fn key_lt(a: (Seq<char>, Seq<char>), b: (Seq<char>, Seq<char>)) -> bool {
    lex_lt(a.0, b.0) || (a.0 == b.0 && lex_lt(a.1, b.1))
}

pub proof fn lemma_key_order(a: (Seq<char>, Seq<char>), b: (Seq<char>, Seq<char>), c: (Seq<char>, Seq<char>))
    ensures
        !key_lt(a, a),
        key_lt(a, b) && key_lt(b, c) ==> key_lt(a, c),
        key_lt(a, b) ==> !key_lt(b, a),
        a != b ==> key_lt(a, b) || key_lt(b, a),
{
    lemma_lex_irreflexive(a.0);
    lemma_lex_irreflexive(a.1);
    if lex_lt(a.0, b.0) && lex_lt(b.0, c.0) {
        lemma_lex_transitive(a.0, b.0, c.0);
    }
    if lex_lt(a.1, b.1) && lex_lt(b.1, c.1) {
        lemma_lex_transitive(a.1, b.1, c.1);
    }
    if lex_lt(a.0, b.0) {
        lemma_lex_asymmetric(a.0, b.0);
    }
    if lex_lt(a.1, b.1) {
        lemma_lex_asymmetric(a.1, b.1);
    }
    if a.0 != b.0 {
        lemma_lex_total(a.0, b.0);
    }
    if a.1 != b.1 {
        lemma_lex_total(a.1, b.1);
    }
}

/// Row `a` comes before row `b`: by key, then by row.
pub open spec fn row_before(contents: Seq<ContentItem>, a: int, b: int) -> bool {
    key_lt(row_key(contents[a]), row_key(contents[b])) || (row_key(contents[a]) == row_key(contents[b]) && a < b)
}

pub open spec fn rows_sorted(contents: Seq<ContentItem>, s: Seq<usize>) -> bool {
    &&& forall|k: int| 0 <= k < s.len() ==> #[trigger] s[k] < contents.len()
    &&& forall|k: int, l: int| 0 <= k < l < s.len() ==> row_before(contents, #[trigger] s[k] as int, #[trigger] s[l] as int)
}

/// `s` lists every row of kind `kind`, each once, by key then row.
pub open spec fn is_kind_index(contents: Seq<ContentItem>, kind: ContentKind, s: Seq<usize>) -> bool {
    &&& rows_sorted(contents, s)
    &&& forall|k: int| 0 <= k < s.len() ==> contents[#[trigger] s[k] as int].kind == kind
    &&& forall|i: int| 0 <= i < contents.len() && (#[trigger] contents[i]).kind == kind ==> s.contains(i as usize)
}

pub proof fn lemma_row_order(contents: Seq<ContentItem>, a: int, b: int, c: int)
    ensures
        row_before(contents, a, b) && row_before(contents, b, c) ==> row_before(contents, a, c),
        row_before(contents, a, b) ==> !row_before(contents, b, a),
        a != b ==> row_before(contents, a, b) || row_before(contents, b, a),
{
    lemma_key_order(row_key(contents[a]), row_key(contents[b]), row_key(contents[c]));
    lemma_key_order(row_key(contents[b]), row_key(contents[a]), row_key(contents[c]));
}

/// In a sorted index the keys do not decrease.
pub proof fn lemma_sorted_keys(contents: Seq<ContentItem>, s: Seq<usize>, k: int, l: int)
    requires
        rows_sorted(contents, s),
        0 <= k <= l < s.len(),
    ensures
        !key_lt(row_key(contents[s[l] as int]), row_key(contents[s[k] as int])),
{
    let (x, y) = (row_key(contents[s[k] as int]), row_key(contents[s[l] as int]));
    lemma_key_order(x, y, x);
    if k < l {
        assert(row_before(contents, s[k] as int, s[l] as int));
    }
}

pub proof fn lemma_contains_extend(s: Seq<usize>, i: int, y: usize)
    requires
        0 <= i < s.len(),
    ensures
        s.subrange(0, i + 1).contains(y) <==> s.subrange(0, i).contains(y) || s[i] == y,
{
    let t = s.subrange(0, i + 1);
    let u = s.subrange(0, i);
    if t.contains(y) {
        let k = choose|k: int| 0 <= k < t.len() && t[k] == y;
        if k < i {
            assert(u[k] == y);
        }
    }
    if u.contains(y) {
        let k = choose|k: int| 0 <= k < u.len() && u[k] == y;
        assert(t[k] == y);
    }
    if s[i] == y {
        assert(t[i] == y);
    }
}

pub proof fn lemma_contains_push(s: Seq<usize>, x: usize, y: usize)
    ensures
        s.push(x).contains(y) <==> s.contains(y) || x == y,
{
    let t = s.push(x);
    if t.contains(y) {
        let k = choose|k: int| 0 <= k < t.len() && t[k] == y;
        if k < s.len() {
            assert(s[k] == y);
        }
    }
    if s.contains(y) {
        let k = choose|k: int| 0 <= k < s.len() && s[k] == y;
        assert(t[k] == y);
    }
    if x == y {
        assert(t[s.len() as int] == y);
    }
}

/// Whether the key of row `row` comes before (`book`, `p`).
fn key_less(
    contents: &Vec<ContentItem>,
    ids: &Vec<Vec<char>>,
    owners: &Vec<Vec<char>>,
    row: usize,
    book: &Vec<char>,
    p: &Vec<char>,
) -> (r: bool)
    requires
        ids_match(contents@, ids@),
        book_ids_match(contents@, owners@),
        row < contents@.len(),
    ensures
        r == key_lt(row_key(contents@[row as int]), (book@, p@)),
{
    assert(ids@[row as int]@ == contents@[row as int].content_id@);
    assert(owners@[row as int]@ == contents@[row as int].book_id@);
    lex_less(&owners[row], book) || (same_chars(&owners[row], book) && lex_less(&ids[row], p))
}

fn row_less(contents: &Vec<ContentItem>, ids: &Vec<Vec<char>>, owners: &Vec<Vec<char>>, a: usize, b: usize) -> (r: bool)
    requires
        ids_match(contents@, ids@),
        book_ids_match(contents@, owners@),
        a < contents@.len(),
        b < contents@.len(),
    ensures
        r == row_before(contents@, a as int, b as int),
{
    assert(ids@[a as int]@ == contents@[a as int].content_id@);
    assert(ids@[b as int]@ == contents@[b as int].content_id@);
    assert(owners@[b as int]@ == contents@[b as int].book_id@);
    assert(owners@[a as int]@ == contents@[a as int].book_id@);
    key_less(contents, ids, owners, a, &owners[b], &ids[b]) || (a < b && same_chars(&owners[a], &owners[b])
        && same_chars(&ids[a], &ids[b]))
}

/// Merges two sorted indexes with no row in common.
fn merge(
    contents: &Vec<ContentItem>,
    ids: &Vec<Vec<char>>,
    owners: &Vec<Vec<char>>,
    a: &Vec<usize>,
    b: &Vec<usize>,
) -> (r: Vec<usize>)
    requires
        ids_match(contents@, ids@),
        book_ids_match(contents@, owners@),
        rows_sorted(contents@, a@),
        rows_sorted(contents@, b@),
        forall|x: usize| !(a@.contains(x) && b@.contains(x)),
    ensures
        rows_sorted(contents@, r@),
        r@.len() == a@.len() + b@.len(),
        forall|x: usize| r@.contains(x) <==> a@.contains(x) || b@.contains(x),
{
    let mut out: Vec<usize> = Vec::new();
    let mut i: usize = 0;
    let mut j: usize = 0;
    while i < a.len() || j < b.len()
        invariant
            ids_match(contents@, ids@),
            book_ids_match(contents@, owners@),
            rows_sorted(contents@, a@),
            rows_sorted(contents@, b@),
            forall|x: usize| !(a@.contains(x) && b@.contains(x)),
            i <= a@.len(),
            j <= b@.len(),
            rows_sorted(contents@, out@),
            out@.len() == i + j,
            forall|x: usize| out@.contains(x) <==> a@.subrange(0, i as int).contains(x) || b@.subrange(0, j as int).contains(x),
            i < a@.len() ==> forall|k: int| 0 <= k < out@.len() ==> row_before(contents@, #[trigger] out@[k] as int, a@[i as int] as int),
            j < b@.len() ==> forall|k: int| 0 <= k < out@.len() ==> row_before(contents@, #[trigger] out@[k] as int, b@[j as int] as int),
        decreases a.len() + b.len() - i - j,
    {
        let take_a = if i < a.len() && j < b.len() {
            row_less(contents, ids, owners, a[i], b[j])
        } else {
            i < a.len()
        };
        let ghost before = out@;
        if take_a {
            let x = a[i];
            out.push(x);
            proof {
                if j < b@.len() && !(i < a@.len() && row_before(contents@, a@[i as int] as int, b@[j as int] as int)) {
                    assert(false);
                }
                assert forall|y: usize| out@.contains(y) <==> a@.subrange(0, i + 1).contains(y) || b@.subrange(0, j as int).contains(y) by {
                    lemma_contains_push(before, x, y);
                    lemma_contains_extend(a@, i as int, y);
                }
                if i + 1 < a@.len() {
                    assert forall|k: int| 0 <= k < out@.len() implies row_before(contents@, #[trigger] out@[k] as int, a@[i + 1] as int) by {
                        assert(row_before(contents@, a@[i as int] as int, a@[i + 1] as int));
                        if k < before.len() {
                            lemma_row_order(contents@, out@[k] as int, a@[i as int] as int, a@[i + 1] as int);
                        }
                    }
                }
                if j < b@.len() {
                    assert forall|k: int| 0 <= k < out@.len() implies row_before(contents@, #[trigger] out@[k] as int, b@[j as int] as int) by {
                    }
                }
                assert forall|k: int, l: int| 0 <= k < l < out@.len() implies row_before(contents@, #[trigger] out@[k] as int, #[trigger] out@[l] as int) by {
                    if l < before.len() {
                        assert(out@[k] == before[k] && out@[l] == before[l]);
                    }
                }
            }
            i = i + 1;
        } else {
            let x = b[j];
            out.push(x);
            proof {
                assert(j < b@.len());
                if i < a@.len() {
                    assert(!row_before(contents@, a@[i as int] as int, b@[j as int] as int));
                    assert(a@.contains(a@[i as int]));
                    assert(a@[i as int] != b@[j as int]) by {
                        assert(b@.contains(b@[j as int]));
                    }
                    lemma_row_order(contents@, a@[i as int] as int, b@[j as int] as int, a@[i as int] as int);
                }
                assert forall|y: usize| out@.contains(y) <==> a@.subrange(0, i as int).contains(y) || b@.subrange(0, j + 1).contains(y) by {
                    lemma_contains_push(before, x, y);
                    lemma_contains_extend(b@, j as int, y);
                }
                if j + 1 < b@.len() {
                    assert forall|k: int| 0 <= k < out@.len() implies row_before(contents@, #[trigger] out@[k] as int, b@[j + 1] as int) by {
                        assert(row_before(contents@, b@[j as int] as int, b@[j + 1] as int));
                        if k < before.len() {
                            lemma_row_order(contents@, out@[k] as int, b@[j as int] as int, b@[j + 1] as int);
                        }
                    }
                }
                assert forall|k: int, l: int| 0 <= k < l < out@.len() implies row_before(contents@, #[trigger] out@[k] as int, #[trigger] out@[l] as int) by {
                    if l < before.len() {
                        assert(out@[k] == before[k] && out@[l] == before[l]);
                    }
                }
            }
            j = j + 1;
        }
    }
    assert(a@.subrange(0, a@.len() as int) =~= a@);
    assert(b@.subrange(0, b@.len() as int) =~= b@);
    out
}

/// Sorts the rows `v[lo..hi]`; `v` holds rows in increasing order.
fn merge_sort(
    contents: &Vec<ContentItem>,
    ids: &Vec<Vec<char>>,
    owners: &Vec<Vec<char>>,
    v: &Vec<usize>,
    lo: usize,
    hi: usize,
) -> (r: Vec<usize>)
    requires
        ids_match(contents@, ids@),
        book_ids_match(contents@, owners@),
        lo <= hi <= v@.len(),
        forall|k: int, l: int| 0 <= k < l < v@.len() ==> #[trigger] v@[k] < #[trigger] v@[l],
        forall|k: int| 0 <= k < v@.len() ==> #[trigger] v@[k] < contents@.len(),
    ensures
        rows_sorted(contents@, r@),
        forall|x: usize| r@.contains(x) <==> v@.subrange(lo as int, hi as int).contains(x),
    decreases hi - lo,
{
    if hi - lo == 0 {
        let r: Vec<usize> = Vec::new();
        proof {
            assert forall|x: usize| r@.contains(x) <==> v@.subrange(lo as int, hi as int).contains(x) by {
                if v@.subrange(lo as int, hi as int).contains(x) {
                    let k = choose|k: int| 0 <= k < v@.subrange(lo as int, hi as int).len() && v@.subrange(lo as int, hi as int)[k] == x;
                }
            }
        }
        return r;
    }
    if hi - lo == 1 {
        let mut r: Vec<usize> = Vec::new();
        r.push(v[lo]);
        proof {
            assert(v@.subrange(lo as int, hi as int) =~= seq![v@[lo as int]]);
            assert forall|x: usize| r@.contains(x) <==> v@.subrange(lo as int, hi as int).contains(x) by {
                if r@.contains(x) {
                    assert(v@.subrange(lo as int, hi as int)[0] == x);
                }
                if v@.subrange(lo as int, hi as int).contains(x) {
                    assert(r@[0] == x);
                }
            }
        }
        return r;
    }
    let mid = lo + (hi - lo) / 2;
    let left = merge_sort(contents, ids, owners, v, lo, mid);
    let right = merge_sort(contents, ids, owners, v, mid, hi);
    let ghost whole = v@.subrange(lo as int, hi as int);
    let ghost sl = v@.subrange(lo as int, mid as int);
    let ghost sr = v@.subrange(mid as int, hi as int);
    proof {
        assert forall|x: usize| !(left@.contains(x) && right@.contains(x)) by {
            if left@.contains(x) && right@.contains(x) {
                let k = choose|k: int| 0 <= k < sl.len() && sl[k] == x;
                let m = choose|m: int| 0 <= m < sr.len() && sr[m] == x;
                assert(v@[lo + k] < v@[mid + m]);
            }
        }
    }
    let r = merge(contents, ids, owners, &left, &right);
    proof {
        assert forall|x: usize| r@.contains(x) <==> whole.contains(x) by {
            if sl.contains(x) {
                let k = choose|k: int| 0 <= k < sl.len() && sl[k] == x;
                assert(whole[k] == x);
            }
            if sr.contains(x) {
                let k = choose|k: int| 0 <= k < sr.len() && sr[k] == x;
                assert(whole[k + (mid - lo)] == x);
            }
            if whole.contains(x) {
                let k = choose|k: int| 0 <= k < whole.len() && whole[k] == x;
                if k < mid - lo {
                    assert(sl[k] == x);
                } else {
                    assert(sr[k - (mid - lo)] == x);
                }
            }
        }
    }
    r
}

/// Every row of kind `kind`, sorted by key then row.
pub fn kind_index(
    contents: &Vec<ContentItem>,
    ids: &Vec<Vec<char>>,
    owners: &Vec<Vec<char>>,
    kind: ContentKind,
) -> (r: Vec<usize>)
    requires
        ids_match(contents@, ids@),
        book_ids_match(contents@, owners@),
    ensures
        is_kind_index(contents@, kind, r@),
{
    let mut v: Vec<usize> = Vec::new();
    let mut k: usize = 0;
    while k < contents.len()
        invariant
            k <= contents@.len(),
            forall|a: int, b: int| 0 <= a < b < v@.len() ==> #[trigger] v@[a] < #[trigger] v@[b],
            forall|a: int| 0 <= a < v@.len() ==> #[trigger] v@[a] < k && contents@[v@[a] as int].kind == kind,
            forall|i: int| 0 <= i < k && (#[trigger] contents@[i]).kind == kind ==> v@.contains(i as usize),
        decreases contents.len() - k,
    {
        if contents[k].kind == kind {
            let ghost before = v@;
            v.push(k);
            proof {
                assert forall|i: int| 0 <= i < k + 1 && (#[trigger] contents@[i]).kind == kind implies v@.contains(i as usize) by {
                    lemma_contains_push(before, k, i as usize);
                }
            }
        }
        k = k + 1;
    }
    let r = merge_sort(contents, ids, owners, &v, 0, v.len());
    proof {
        assert(v@.subrange(0, v@.len() as int) =~= v@);
        assert forall|a: int| 0 <= a < r@.len() implies contents@[#[trigger] r@[a] as int].kind == kind by {
            assert(r@.contains(r@[a]));
            let m = choose|m: int| 0 <= m < v@.len() && v@[m] == r@[a];
        }
        assert forall|i: int| 0 <= i < contents@.len() && (#[trigger] contents@[i]).kind == kind implies r@.contains(i as usize) by {
        }
    }
    r
}

/// The first position of the sorted index `s` whose key is not before
/// (`book`, `p`); every earlier position has a key before it.
pub fn lower_bound(
    contents: &Vec<ContentItem>,
    ids: &Vec<Vec<char>>,
    owners: &Vec<Vec<char>>,
    s: &Vec<usize>,
    book: &Vec<char>,
    p: &Vec<char>,
) -> (r: usize)
    requires
        ids_match(contents@, ids@),
        book_ids_match(contents@, owners@),
        rows_sorted(contents@, s@),
    ensures
        r <= s@.len(),
        forall|k: int| 0 <= k < r ==> key_lt(row_key(contents@[#[trigger] s@[k] as int]), (book@, p@)),
        forall|k: int| r <= k < s@.len() ==> !key_lt(row_key(contents@[#[trigger] s@[k] as int]), (book@, p@)),
{
    let ghost target = (book@, p@);
    let mut lo: usize = 0;
    let mut hi: usize = s.len();
    while lo < hi
        invariant
            ids_match(contents@, ids@),
            book_ids_match(contents@, owners@),
            rows_sorted(contents@, s@),
            target == (book@, p@),
            lo <= hi <= s@.len(),
            forall|k: int| 0 <= k < lo ==> key_lt(row_key(contents@[#[trigger] s@[k] as int]), target),
            forall|k: int| hi <= k < s@.len() ==> !key_lt(row_key(contents@[#[trigger] s@[k] as int]), target),
        decreases hi - lo,
    {
        let mid = lo + (hi - lo) / 2;
        let row = s[mid];
        let ghost pivot = row_key(contents@[row as int]);
        if key_less(contents, ids, owners, row, book, p) {
            proof {
                assert forall|k: int| 0 <= k < mid + 1 implies key_lt(row_key(contents@[#[trigger] s@[k] as int]), target) by {
                    if k < mid {
                        lemma_sorted_keys(contents@, s@, k, mid as int);
                        let x = row_key(contents@[s@[k] as int]);
                        lemma_key_order(x, pivot, target);
                    }
                }
            }
            lo = mid + 1;
        } else {
            proof {
                assert forall|k: int| mid <= k < s@.len() implies !key_lt(row_key(contents@[#[trigger] s@[k] as int]), target) by {
                    if k > mid {
                        lemma_sorted_keys(contents@, s@, mid as int, k);
                        let x = row_key(contents@[s@[k] as int]);
                        lemma_key_order(pivot, x, target);
                    }
                }
            }
            hi = mid;
        }
    }
    lo
}

/// The first row of kind `kind` of book `book` whose content id is `p`.
pub fn find_exact(
    contents: &Vec<ContentItem>,
    ids: &Vec<Vec<char>>,
    owners: &Vec<Vec<char>>,
    index: &Vec<usize>,
    kind: ContentKind,
    book: &Vec<char>,
    p: &Vec<char>,
) -> (r: Option<usize>)
    requires
        ids_match(contents@, ids@),
        book_ids_match(contents@, owners@),
        is_kind_index(contents@, kind, index@),
    ensures
        match r {
            Some(c) => c < contents@.len() && contents@[c as int].kind == kind && row_key(contents@[c as int]) == (
                book@,
                p@,
            ) && forall|j: int|
                0 <= j < contents@.len() && (#[trigger] contents@[j]).kind == kind && row_key(contents@[j]) == (book@, p@)
                    ==> c <= j,
            None => forall|j: int|
                0 <= j < contents@.len() && (#[trigger] contents@[j]).kind == kind ==> row_key(contents@[j]) != (book@, p@),
        },
{
    let ghost target = (book@, p@);
    let rows: usize = contents.len();
    assert(contents@.len() == rows);
    let q = lower_bound(contents, ids, owners, index, book, p);
    let found = q < index.len() && {
        assert(ids@[index@[q as int] as int]@ == contents@[index@[q as int] as int].content_id@);
        assert(owners@[index@[q as int] as int]@ == contents@[index@[q as int] as int].book_id@);
        same_chars(&owners[index[q]], book) && same_chars(&ids[index[q]], p)
    };
    proof {
        lemma_key_order(target, target, target);
        assert forall|j: int|
            0 <= j < contents@.len() && (#[trigger] contents@[j]).kind == kind && row_key(contents@[j]) == target implies exists|m: int|
            q <= m < index@.len() && index@[m] as int == j by {
            assert(index@.contains(j as usize));
            let m = choose|m: int| 0 <= m < index@.len() && index@[m] == j as usize;
            assert(index@[m] as int == j);
            if m < q {
                assert(key_lt(row_key(contents@[index@[m] as int]), target));
            }
            assert(q <= m < index@.len() && index@[m] as int == j);
        }
    }
    if found {
        let c = index[q];
        proof {
            assert(row_key(contents@[c as int]) == target);
            assert forall|j: int|
                0 <= j < contents@.len() && (#[trigger] contents@[j]).kind == kind && row_key(contents@[j]) == target implies c
                <= j by {
                let m = choose|m: int| q <= m < index@.len() && index@[m] as int == j;
                if m > q {
                    assert(row_before(contents@, index@[q as int] as int, index@[m] as int));
                }
            }
        }
        Some(c)
    } else {
        proof {
            assert forall|j: int| 0 <= j < contents@.len() && (#[trigger] contents@[j]).kind == kind implies row_key(contents@[j])
                != target by {
                if row_key(contents@[j]) == target {
                    let m = choose|m: int| q <= m < index@.len() && index@[m] as int == j;
                    lemma_sorted_keys(contents@, index@, q as int, m);
                    let x = row_key(contents@[index@[q as int] as int]);
                    assert(!key_lt(x, target));
                    lemma_key_order(x, target, x);
                    assert(x == target);
                }
            }
        }
        None
    }
}

} // verus!
