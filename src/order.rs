//! Lexicographic order on texts, by character code; for UTF-8 strings this is
//! the order of `str`'s `Ord`.
use vstd::prelude::*;
use vstd::string::*;

verus! {

pub open spec fn lex_lt(a: Seq<char>, b: Seq<char>) -> bool
    decreases a.len(),
{
    if a.len() == 0 {
        b.len() > 0
    } else if b.len() == 0 {
        false
    } else if a[0] != b[0] {
        a[0] < b[0]
    } else {
        lex_lt(a.drop_first(), b.drop_first())
    }
}

/// Of two different texts exactly one comes first; no text comes before itself.
pub proof fn lemma_lex_total(a: Seq<char>, b: Seq<char>)
    ensures
        !(lex_lt(a, b) && lex_lt(b, a)),
        a != b ==> lex_lt(a, b) || lex_lt(b, a),
        !lex_lt(a, a),
    decreases a.len(),
{
    if a.len() > 0 && b.len() > 0 {
        lemma_lex_total(a.drop_first(), b.drop_first());
        if a[0] == b[0] && a != b {
            assert(a =~= seq![a[0]] + a.drop_first());
            assert(b =~= seq![b[0]] + b.drop_first());
        }
        lemma_lex_total(a.drop_first(), a.drop_first());
    } else if a.len() == 0 && b.len() == 0 {
        assert(a =~= b);
    }
    if a.len() > 0 {
        lemma_lex_total(a.drop_first(), a.drop_first());
    }
}

pub proof fn lemma_lex_trans(a: Seq<char>, b: Seq<char>, c: Seq<char>)
    requires
        lex_lt(a, b),
        lex_lt(b, c),
    ensures
        lex_lt(a, c),
    decreases a.len(),
{
    if a.len() > 0 && b.len() > 0 && c.len() > 0 && a[0] == b[0] && b[0] == c[0] {
        lemma_lex_trans(a.drop_first(), b.drop_first(), c.drop_first());
    }
}

pub open spec fn strictly_sorted(s: Seq<Seq<char>>) -> bool {
    forall|a: int, b: int| 0 <= a < b < s.len() ==> lex_lt(#[trigger] s[a], #[trigger] s[b])
}

/// Two strictly sorted lists that hold the same texts are the same list.
pub proof fn lemma_sorted_unique(s: Seq<Seq<char>>, t: Seq<Seq<char>>)
    requires
        strictly_sorted(s),
        strictly_sorted(t),
        forall|x: Seq<char>| s.contains(x) <==> t.contains(x),
    ensures
        s == t,
    decreases s.len() + t.len(),
{
    if s.len() == 0 {
        if t.len() > 0 {
            assert(t.contains(t[0]));
        }
        assert(s =~= t);
    } else if t.len() == 0 {
        assert(s.contains(s[0]));
    } else {
        let ls = s.len() - 1;
        let lt = t.len() - 1;
        assert(s.contains(s[ls]));
        assert(t.contains(t[lt]));
        let j = choose|j: int| 0 <= j < t.len() && t[j] == s[ls];
        let i = choose|i: int| 0 <= i < s.len() && s[i] == t[lt];
        lemma_lex_total(s[ls], t[lt]);
        lemma_lex_total(s[ls], s[ls]);
        if j < lt {
            assert(lex_lt(t[j], t[lt]));
            if i < ls {
                assert(lex_lt(s[i], s[ls]));
            }
        }
        assert(s[ls] == t[lt]);
        let s2 = s.drop_last();
        let t2 = t.drop_last();
        assert forall|x: Seq<char>| s2.contains(x) <==> t2.contains(x) by {
            if s2.contains(x) {
                let p = choose|p: int| 0 <= p < s2.len() && s2[p] == x;
                assert(s.contains(x));
                let q = choose|q: int| 0 <= q < t.len() && t[q] == x;
                assert(lex_lt(s[p], s[ls]));
                lemma_lex_total(x, x);
                if q == lt {
                    assert(false);
                }
                assert(t2[q] == x);
            }
            if t2.contains(x) {
                let q = choose|q: int| 0 <= q < t2.len() && t2[q] == x;
                assert(t.contains(x));
                let p = choose|p: int| 0 <= p < s.len() && s[p] == x;
                assert(lex_lt(t[q], t[lt]));
                lemma_lex_total(x, x);
                if p == ls {
                    assert(false);
                }
                assert(s2[p] == x);
            }
        }
        lemma_sorted_unique(s2, t2);
        assert(s =~= s2.push(s[ls]));
        assert(t =~= t2.push(t[lt]));
    }
}

/// Compares two texts in the order `lex_lt`.
pub fn text_lt(a: &str, b: &str) -> (r: bool)
    ensures
        r == lex_lt(a@, b@),
{
    let na = a.unicode_len();
    let nb = b.unicode_len();
    let mut i: usize = 0;
    assert(a@.skip(0) =~= a@);
    assert(b@.skip(0) =~= b@);
    while i < na && i < nb
        invariant
            na == a@.len(),
            nb == b@.len(),
            i <= na,
            i <= nb,
            lex_lt(a@, b@) == lex_lt(a@.skip(i as int), b@.skip(i as int)),
        decreases na - i,
    {
        let x = a.get_char(i);
        let y = b.get_char(i);
        assert(a@.skip(i as int)[0] == x);
        assert(b@.skip(i as int)[0] == y);
        if x != y {
            return x < y;
        }
        assert(a@.skip(i as int).drop_first() =~= a@.skip(i + 1));
        assert(b@.skip(i as int).drop_first() =~= b@.skip(i + 1));
        i = i + 1;
    }
    na < nb
}

} // verus!
