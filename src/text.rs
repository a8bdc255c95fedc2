//! Identifier strings as character sequences: prefixes and lexicographic order.
use vstd::prelude::*;

verus! {

/// `p` is a literal prefix of `s`.
pub open spec fn is_prefix(p: Seq<char>, s: Seq<char>) -> bool {
    p.len() <= s.len() && s.subrange(0, p.len() as int) =~= p
}

/// Strict lexicographic order on character sequences, by code point.
pub open spec fn lex_lt(a: Seq<char>, b: Seq<char>) -> bool
    decreases a.len(),
{
    if b.len() == 0 {
        false
    } else if a.len() == 0 {
        true
    } else if a[0] != b[0] {
        a[0] < b[0]
    } else {
        lex_lt(a.drop_first(), b.drop_first())
    }
}

pub proof fn lemma_lex_irreflexive(a: Seq<char>)
    ensures
        !lex_lt(a, a),
    decreases a.len(),
{
    if a.len() > 0 {
        lemma_lex_irreflexive(a.drop_first());
    }
}

pub proof fn lemma_lex_transitive(a: Seq<char>, b: Seq<char>, c: Seq<char>)
    requires
        lex_lt(a, b),
        lex_lt(b, c),
    ensures
        lex_lt(a, c),
    decreases a.len(),
{
    if a.len() > 0 && b.len() > 0 && c.len() > 0 && a[0] == b[0] && b[0] == c[0] {
        lemma_lex_transitive(a.drop_first(), b.drop_first(), c.drop_first());
    }
}

/// Any two distinct sequences are ordered one way or the other.
pub proof fn lemma_lex_total(a: Seq<char>, b: Seq<char>)
    requires
        a != b,
    ensures
        lex_lt(a, b) || lex_lt(b, a),
    decreases a.len(),
{
    if a.len() > 0 && b.len() > 0 && a[0] == b[0] {
        if a.drop_first() == b.drop_first() {
            assert(a =~= seq![a[0]] + a.drop_first());
            assert(b =~= seq![b[0]] + b.drop_first());
        }
        lemma_lex_total(a.drop_first(), b.drop_first());
    } else if a.len() == 0 && b.len() == 0 {
        assert(a =~= b);
    }
}

pub proof fn lemma_lex_asymmetric(a: Seq<char>, b: Seq<char>)
    requires
        lex_lt(a, b),
    ensures
        !lex_lt(b, a),
{
    if lex_lt(b, a) {
        lemma_lex_transitive(a, b, a);
        lemma_lex_irreflexive(a);
    }
}

/// An extension of `p` does not come before `p`.
pub proof fn lemma_prefix_not_less(p: Seq<char>, s: Seq<char>)
    requires
        is_prefix(p, s),
    ensures
        !lex_lt(s, p),
    decreases p.len(),
{
    if p.len() > 0 {
        assert(s[0] == s.subrange(0, p.len() as int)[0]);
        assert(s.drop_first().subrange(0, p.len() - 1) =~= p.drop_first()) by {
            assert forall|k: int| 0 <= k < p.len() - 1 implies s.drop_first()[k] == p.drop_first()[k] by {
                assert(s.subrange(0, p.len() as int)[k + 1] == p[k + 1]);
            }
        }
        lemma_prefix_not_less(p.drop_first(), s.drop_first());
    }
}

/// A sequence that lies between `p` and an extension of `p` extends `p`.
pub proof fn lemma_between_prefix(p: Seq<char>, x: Seq<char>, h: Seq<char>)
    requires
        is_prefix(p, h),
        !lex_lt(x, p),
        !lex_lt(h, x),
    ensures
        is_prefix(p, x),
    decreases p.len(),
{
    if p.len() > 0 {
        assert(h[0] == h.subrange(0, p.len() as int)[0]);
        assert(x.len() > 0);
        assert(x[0] == p[0]);
        assert(h.drop_first().subrange(0, p.len() - 1) =~= p.drop_first()) by {
            assert forall|k: int| 0 <= k < p.len() - 1 implies h.drop_first()[k] == p.drop_first()[k] by {
                assert(h.subrange(0, p.len() as int)[k + 1] == p[k + 1]);
            }
        }
        lemma_between_prefix(p.drop_first(), x.drop_first(), h.drop_first());
        assert(x.subrange(0, p.len() as int) =~= p) by {
            assert forall|k: int| 0 <= k < p.len() implies x.subrange(0, p.len() as int)[k] == p[k] by {
                if k > 0 {
                    assert(x.drop_first().subrange(0, p.len() - 1)[k - 1] == p.drop_first()[k - 1]);
                }
            }
        }
    } else {
        assert(x.subrange(0, 0) =~= p);
    }
}

/// The characters of `s`, for repeated indexed access.
pub fn chars_of(s: &String) -> (r: Vec<char>)
    ensures
        r@ == s@,
{
    let t = s.as_str();
    let n = t.unicode_len();
    let mut r: Vec<char> = Vec::new();
    let mut i: usize = 0;
    while i < n
        invariant
            n == t@.len(),
            t@ == s@,
            i <= n,
            r@ =~= t@.subrange(0, i as int),
        decreases n - i,
    {
        r.push(t.get_char(i));
        i = i + 1;
    }
    r
}

/// Whether `p` is a literal prefix of `s`.
pub fn has_prefix(p: &Vec<char>, s: &Vec<char>) -> (r: bool)
    ensures
        r == is_prefix(p@, s@),
{
    if p.len() > s.len() {
        return false;
    }
    let mut i: usize = 0;
    while i < p.len()
        invariant
            p.len() <= s.len(),
            i <= p.len(),
            forall|j: int| 0 <= j < i ==> s@[j] == p@[j],
        decreases p.len() - i,
    {
        if p[i] != s[i] {
            assert(s@.subrange(0, p.len() as int)[i as int] != p@[i as int]);
            return false;
        }
        i = i + 1;
    }
    true
}

/// Whether `a` comes strictly before `b` in lexicographic order.
pub fn lex_less(a: &Vec<char>, b: &Vec<char>) -> (r: bool)
    ensures
        r == lex_lt(a@, b@),
{
    let mut i: usize = 0;
    assert(a@.skip(0) =~= a@);
    assert(b@.skip(0) =~= b@);
    while i < a.len() && i < b.len() && a[i] == b[i]
        invariant
            i <= a.len(),
            i <= b.len(),
            lex_lt(a@, b@) == lex_lt(a@.skip(i as int), b@.skip(i as int)),
        decreases a.len() - i,
    {
        assert(a@.skip(i as int).drop_first() =~= a@.skip(i + 1));
        assert(b@.skip(i as int).drop_first() =~= b@.skip(i + 1));
        i = i + 1;
    }
    if i == b.len() {
        false
    } else if i == a.len() {
        true
    } else {
        a[i] < b[i]
    }
}

/// Whether `a` and `b` hold the same characters.
pub fn same_chars(a: &Vec<char>, b: &Vec<char>) -> (r: bool)
    ensures
        r == (a@ == b@),
{
    if a.len() != b.len() {
        return false;
    }
    let mut i: usize = 0;
    while i < a.len()
        invariant
            a.len() == b.len(),
            i <= a.len(),
            forall|j: int| 0 <= j < i ==> a@[j] == b@[j],
        decreases a.len() - i,
    {
        if a[i] != b[i] {
            return false;
        }
        i = i + 1;
    }
    assert(a@ =~= b@);
    true
}

} // verus!
