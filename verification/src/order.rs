//! Lexicographic ordering of titles and order-preserving insertion,
//! used to keep note listings sorted.

use vstd::prelude::*;
use vstd::seq_lib::to_multiset_insert;
use vstd::utf8::char_u32_cast;

verus! {

/// Ascending lexicographic order on character sequences by code point.
pub open spec fn lex_le(a: Seq<char>, b: Seq<char>) -> bool
    decreases a.len(),
{
    if a.len() == 0 {
        true
    } else if b.len() == 0 {
        false
    } else if a[0] == b[0] {
        lex_le(a.drop_first(), b.drop_first())
    } else {
        (a[0] as u32) < (b[0] as u32)
    }
}

/// A sequence of titles in ascending order.
pub open spec fn sorted_le(s: Seq<Seq<char>>) -> bool {
    forall|i: int, j: int| 0 <= i < j < s.len() ==> lex_le(#[trigger] s[i], #[trigger] s[j])
}

/// The character sequences of a vector of character vectors.
pub open spec fn views(s: Seq<Vec<char>>) -> Seq<Seq<char>> {
    s.map_values(|v: Vec<char>| v@)
}

/// The character sequences of a vector of strings.
pub open spec fn str_views(s: Seq<String>) -> Seq<Seq<char>> {
    s.map_values(|v: String| v@)
}

/// The order is total.
pub proof fn lemma_lex_le_total(a: Seq<char>, b: Seq<char>)
    ensures
        lex_le(a, b) || lex_le(b, a),
    decreases a.len(),
{
    if a.len() > 0 && b.len() > 0 {
        if a[0] == b[0] {
            lemma_lex_le_total(a.drop_first(), b.drop_first());
        } else {
            char_u32_cast(a[0], a[0] as u32);
            char_u32_cast(b[0], b[0] as u32);
        }
    }
}

/// The order is transitive.
pub proof fn lemma_lex_le_trans(a: Seq<char>, b: Seq<char>, c: Seq<char>)
    requires
        lex_le(a, b),
        lex_le(b, c),
    ensures
        lex_le(a, c),
    decreases a.len(),
{
    if a.len() > 0 && b.len() > 0 && c.len() > 0 {
        if a[0] == b[0] && b[0] == c[0] {
            lemma_lex_le_trans(a.drop_first(), b.drop_first(), c.drop_first());
        }
    }
}

/// Compares two titles; true when the first does not come after the
/// second.
pub fn chars_le(a: &Vec<char>, b: &Vec<char>) -> (r: bool)
    ensures
        r == lex_le(a@, b@),
{
    let mut i: usize = 0;
    proof {
        assert(a@.skip(0) =~= a@);
        assert(b@.skip(0) =~= b@);
    }
    while i < a.len() && i < b.len()
        invariant
            i <= a@.len(),
            i <= b@.len(),
            lex_le(a@, b@) == lex_le(a@.skip(i as int), b@.skip(i as int)),
        decreases a@.len() - i,
    {
        let x = a[i];
        let y = b[i];
        if x != y {
            proof {
                assert(a@.skip(i as int)[0] == x && b@.skip(i as int)[0] == y);
            }
            return (x as u32) < (y as u32);
        }
        proof {
            assert(a@.skip(i as int)[0] == x && b@.skip(i as int)[0] == y);
            assert(a@.skip(i as int).drop_first() =~= a@.skip(i as int + 1));
            assert(b@.skip(i as int).drop_first() =~= b@.skip(i as int + 1));
        }
        i = i + 1;
    }
    proof {
        if i == a.len() {
            assert(a@.skip(i as int).len() == 0);
        } else {
            assert(b@.skip(i as int).len() == 0);
            assert(a@.skip(i as int).len() > 0);
        }
    }
    i == a.len()
}

/// Whether two character vectors hold the same characters.
pub fn chars_eq(a: &Vec<char>, b: &Vec<char>) -> (r: bool)
    ensures
        r == (a@ == b@),
{
    if a.len() != b.len() {
        return false;
    }
    let mut i: usize = 0;
    while i < a.len()
        invariant
            a@.len() == b@.len(),
            i <= a@.len(),
            forall|j: int| 0 <= j < i ==> a@[j] == b@[j],
        decreases a@.len() - i,
    {
        if a[i] != b[i] {
            return false;
        }
        i = i + 1;
    }
    proof {
        assert(a@ =~= b@);
    }
    true
}

/// Inserts a title into a sorted list, keeping it sorted; the result
/// holds exactly the old titles plus the new one.
pub fn insert_sorted(list: &mut Vec<Vec<char>>, x: Vec<char>)
    requires
        sorted_le(views(old(list)@)),
    ensures
        sorted_le(views(final(list)@)),
        views(final(list)@).to_multiset() == views(old(list)@).to_multiset().insert(x@),
{
    let mut p: usize = 0;
    while p < list.len() && chars_le(&list[p], &x)
        invariant
            list@ == old(list)@,
            p <= list@.len(),
            forall|j: int| 0 <= j < p ==> lex_le(#[trigger] views(list@)[j], x@),
        decreases list@.len() - p,
    {
        p = p + 1;
    }
    proof {
        if p < list@.len() {
            lemma_lex_le_total(views(list@)[p as int], x@);
        }
    }
    let ghost olds = views(list@);
    list.insert(p, x);
    proof {
        assert(views(list@) =~= olds.insert(p as int, x@));
        to_multiset_insert(olds, p as int, x@);
        let news = views(list@);
        assert forall|i: int, j: int| 0 <= i < j < news.len() implies lex_le(
            #[trigger] news[i],
            #[trigger] news[j],
        ) by {
            if j < p {
                assert(news[i] == olds[i] && news[j] == olds[j]);
            } else if i > p {
                assert(news[i] == olds[i - 1] && news[j] == olds[j - 1]);
            } else if i < p && j == p {
                assert(news[i] == olds[i] && news[j] == x@);
            } else if i == p {
                assert(news[i] == x@ && news[j] == olds[j - 1]);
                if j - 1 > p {
                    lemma_lex_le_trans(x@, olds[p as int], olds[j - 1]);
                }
            } else {
                // i < p < j
                assert(news[i] == olds[i] && news[j] == olds[j - 1]);
                if j - 1 > p {
                    lemma_lex_le_trans(olds[i], olds[p as int], olds[j - 1]);
                } else {
                    // j - 1 == p
                    assert(lex_le(olds[i], olds[p as int]));
                }
            }
        }
    }
}

} // verus!
