//! Query matching over the searchable projection.
//!
//! A query is split on spaces into terms; every term must match for a row to
//! match (conjunction). A term matches a text when, at some position where a
//! token begins (start of text, or right after a non-token character), the
//! text continues with the term, compared case-insensitively over ASCII.
//! `-` and `#` count as token-internal characters, so a hash-qualified tag
//! token `#x` is matched by the query `#x` and not by the bare query `x`.

use vstd::prelude::*;

verus! {

/// Whether `c` is part of a token: ASCII alphanumerics, `-`, `#`, and every
/// character beyond ASCII.
pub open spec fn is_token_char(c: char) -> bool {
    (48 <= c as u32 && c as u32 <= 57) || (65 <= c as u32 && c as u32 <= 90) || (97 <= c as u32
        && c as u32 <= 122) || c as u32 == 45 || c as u32 == 35 || c as u32 > 127
}

/// ASCII lowercase folding; every other character is kept.
pub open spec fn lower_char(c: char) -> char {
    if 65 <= c as u32 && c as u32 <= 90 {
        (((c as u32) + 32) as u8) as char
    } else {
        c
    }
}

/// `s` folded character by character.
pub open spec fn lower_seq(s: Seq<char>) -> Seq<char> {
    Seq::new(s.len(), |i: int| lower_char(s[i]))
}

/// The term occurs at position `i` of `text`, and a token begins there.
pub open spec fn match_at(term: Seq<char>, text: Seq<char>, i: int) -> bool {
    &&& 0 <= i
    &&& i + term.len() <= text.len()
    &&& (i == 0 || !is_token_char(text[i - 1]))
    &&& (forall|j: int| 0 <= j < term.len() ==> lower_char(text[i + j]) == lower_char(term[j]))
}

/// The term is a case-insensitive prefix of some token of `text`.
pub open spec fn term_matches(term: Seq<char>, text: Seq<char>) -> bool {
    exists|i: int| match_at(term, text, i)
}

/// The least index of a space in `q`, or `q.len()` when there is none.
pub open spec fn first_space(q: Seq<char>) -> int
    decreases q.len(),
{
    if q.len() == 0 {
        0
    } else if q[0] == ' ' {
        0
    } else {
        1 + first_space(q.skip(1))
    }
}

pub proof fn lemma_first_space(q: Seq<char>)
    ensures
        0 <= first_space(q) <= q.len(),
        first_space(q) < q.len() ==> q[first_space(q)] == ' ',
        forall|j: int| 0 <= j < first_space(q) ==> q[j] != ' ',
    decreases q.len(),
{
    if q.len() > 0 && q[0] != ' ' {
        lemma_first_space(q.skip(1));
        assert(forall|j: int| 0 <= j < first_space(q) ==> #[trigger] q[j] != ' ') by {
            assert forall|j: int| 0 <= j < first_space(q) implies #[trigger] q[j] != ' ' by {
                if j > 0 {
                    assert(q.skip(1)[j - 1] != ' ');
                }
            }
        }
    }
}

/// The terms of a query: split on spaces, empty pieces dropped.
pub open spec fn query_terms(q: Seq<char>) -> Seq<Seq<char>>
    decreases q.len(),
{
    if q.len() == 0 {
        Seq::empty()
    } else {
        let k = first_space_clipped(q);
        let word = q.take(k);
        let rest = if k == q.len() {
            Seq::<char>::empty()
        } else {
            q.skip(k + 1)
        };
        let tail = query_terms(rest);
        if word.len() == 0 {
            tail
        } else {
            seq![word] + tail
        }
    }
}

/// `first_space`, bounded into `[0, q.len()]` so that recursion over it
/// visibly terminates.
pub open spec fn first_space_clipped(q: Seq<char>) -> int {
    if 0 <= first_space(q) <= q.len() {
        first_space(q)
    } else {
        q.len() as int
    }
}

/// Every term of the query occurs, case-insensitively, at a token start of
/// `text`.
pub open spec fn query_matches(q: Seq<char>, text: Seq<char>) -> bool {
    forall|t: Seq<char>| query_terms(q).contains(t) ==> term_matches(t, text)
}

/// Whether `c` is part of a token.
pub fn token_char(c: char) -> (r: bool)
    ensures
        r == is_token_char(c),
{
    let u = c as u32;
    (48 <= u && u <= 57) || (65 <= u && u <= 90) || (97 <= u && u <= 122) || u == 45 || u == 35
        || u > 127
}

/// ASCII lowercase folding of one character.
pub fn lower(c: char) -> (r: char)
    ensures
        r == lower_char(c),
{
    let u = c as u32;
    if 65 <= u && u <= 90 {
        ((u + 32) as u8) as char
    } else {
        c
    }
}

/// Whether `term` is a case-insensitive prefix of some token of `text`.
pub fn term_match(term: &Vec<char>, text: &Vec<char>) -> (r: bool)
    ensures
        r == term_matches(term@, text@),
{
    let m = term.len();
    let n = text.len();
    if m > n {
        return false;
    }
    if m == 0 {
        assert(match_at(term@, text@, 0));
        return true;
    }
    let mut i: usize = 0;
    while i <= n - m
        invariant
            m == term@.len(),
            n == text@.len(),
            1 <= m <= n,
            i <= n - m + 1,
            forall|i0: int| 0 <= i0 < i ==> !match_at(term@, text@, i0),
        decreases n - m - i + 1,
    {
        let start_ok = i == 0 || !token_char(text[i - 1]);
        if start_ok {
            let mut j: usize = 0;
            let mut eq = true;
            while j < m
                invariant
                    m == term@.len(),
                    n == text@.len(),
                    i + m <= n,
                    j <= m,
                    eq ==> forall|j0: int|
                        0 <= j0 < j ==> lower_char(text@[i + j0]) == lower_char(term@[j0]),
                    !eq ==> !match_at(term@, text@, i as int),
                decreases m - j,
            {
                if lower(text[i + j]) != lower(term[j]) {
                    eq = false;
                }
                j += 1;
            }
            if eq {
                assert(match_at(term@, text@, i as int));
                return true;
            }
        } else {
            assert(!match_at(term@, text@, i as int));
        }
        i += 1;
    }
    assert(forall|i0: int| !match_at(term@, text@, i0));
    false
}

/// The terms of the query from position `from` on.
fn split_terms_from(q: &Vec<char>, from: usize) -> (r: Vec<Vec<char>>)
    requires
        from <= q@.len(),
    ensures
        r.deep_view() == query_terms(q@.skip(from as int)),
    decreases q@.len() - from,
{
    let ghost rest = q@.skip(from as int);
    if from == q.len() {
        let r: Vec<Vec<char>> = Vec::new();
        proof {
            assert(rest.len() == 0);
            assert(r.deep_view() =~~= query_terms(rest));
        }
        return r;
    }
    proof {
        lemma_first_space(rest);
    }
    // find the next space
    let mut k: usize = from;
    while k < q.len() && q[k] != ' '
        invariant
            from <= k <= q@.len(),
            rest == q@.skip(from as int),
            forall|j: int| from <= j < k ==> q@[j] != ' ',
        decreases q@.len() - k,
    {
        k += 1;
    }
    proof {
        // k - from is exactly first_space(rest)
        assert(forall|j: int| 0 <= j < k - from ==> rest[j] != ' ');
        if k < q.len() {
            assert(rest[k - from] == ' ');
        }
        if first_space(rest) < k - from {
            assert(rest[first_space(rest)] != ' ');
            assert(false);
        }
        if first_space(rest) > k - from {
            assert(k - from < rest.len());
            assert(rest[k - from] != ' ');
            assert(false);
        }
        assert(first_space_clipped(rest) == k - from);
    }
    let mut word: Vec<char> = Vec::new();
    let mut p: usize = from;
    while p < k
        invariant
            from <= p <= k <= q@.len(),
            word@ == q@.subrange(from as int, p as int),
        decreases k - p,
    {
        let c = q[p];
        word.push(c);
        proof {
            assert(q@.subrange(from as int, p + 1 as int) =~= q@.subrange(
                from as int,
                p as int,
            ).push(q@[p as int]));
        }
        p += 1;
    }
    proof {
        assert(word@ =~= rest.take(k - from));
    }
    let tail_from = if k == q.len() {
        k
    } else {
        k + 1
    };
    let tail = split_terms_from(q, tail_from);
    proof {
        if k == q.len() {
            assert(q@.skip(tail_from as int).len() == 0);
            assert(q@.skip(tail_from as int) =~= Seq::<char>::empty());
        } else {
            assert(q@.skip(tail_from as int) =~= rest.skip(k - from + 1));
        }
    }
    if word.len() == 0 {
        tail
    } else {
        let ghost wordv = word@;
        let ghost tailv = tail.deep_view();
        let mut r = tail;
        r.insert(0, word);
        proof {
            assert(r.deep_view() =~~= seq![wordv] + tailv);
            assert(wordv == rest.take(k - from));
            assert(tailv == query_terms(
                if k - from == rest.len() {
                    Seq::<char>::empty()
                } else {
                    rest.skip(k - from + 1)
                },
            ));
            assert(query_terms(rest) == seq![rest.take(k - from)] + tailv);
        }
        r
    }
}

/// The terms of `q`: maximal space-free pieces, empty pieces dropped.
pub fn split_terms(q: &Vec<char>) -> (r: Vec<Vec<char>>)
    ensures
        r.deep_view() == query_terms(q@),
{
    let r = split_terms_from(q, 0);
    proof {
        assert(q@.skip(0) =~= q@);
    }
    r
}

/// Whether every term of the query matches `text`.
pub fn query_match(q: &Vec<char>, text: &Vec<char>) -> (r: bool)
    ensures
        r == query_matches(q@, text@),
{
    let terms = split_terms(q);
    let ghost termsv = terms.deep_view();
    let mut i: usize = 0;
    while i < terms.len()
        invariant
            i <= terms@.len(),
            terms.deep_view() == termsv,
            termsv == query_terms(q@),
            forall|k: int| 0 <= k < i ==> term_matches(termsv[k], text@),
        decreases terms@.len() - i,
    {
        let ok = term_match(&terms[i], text);
        proof {
            assert(terms@[i as int]@ == termsv[i as int]);
        }
        if !ok {
            assert(query_terms(q@).contains(termsv[i as int]));
            return false;
        }
        i += 1;
    }
    assert forall|t: Seq<char>| query_terms(q@).contains(t) implies term_matches(t, text@) by {
        let k = choose|k: int| 0 <= k < termsv.len() && termsv[k] == t;
    }
    true
}

// ---------------------------------------------------------------------------
// Matching laws
// ---------------------------------------------------------------------------

/// Tag qualification. For a tag `t` made of token characters other than `#`,
/// the hash-qualified token `#t` is matched by the hash-qualified query and
/// not by the bare one, while the bare word `t` is matched by the bare query
/// and not by the hash-qualified one.
pub proof fn lemma_tag_qualification(t: Seq<char>)
    requires
        t.len() > 0,
        forall|j: int| 0 <= j < t.len() ==> is_token_char(#[trigger] t[j]),
        forall|j: int| 0 <= j < t.len() ==> #[trigger] t[j] != '#',
    ensures
        term_matches(seq!['#'] + t, seq!['#'] + t),
        !term_matches(t, seq!['#'] + t),
        term_matches(t, t),
        !term_matches(seq!['#'] + t, t),
{
    let tagged = seq!['#'] + t;
    assert(match_at(tagged, tagged, 0));
    assert(match_at(t, t, 0));
    assert forall|i: int| !match_at(t, tagged, i) by {
        if 0 <= i && i + t.len() <= tagged.len() {
            if i == 0 {
                // '#' stays '#' under folding while t[0] is no '#'
                assert(lower_char(tagged[0]) == '#');
                assert(lower_char(t[0]) != '#');
                assert(!match_at(t, tagged, 0));
            } else {
                // i can only be 1, and tagged[0] is a token character
                assert(is_token_char(tagged[i - 1]));
            }
        }
    }
    assert forall|i: int| !match_at(tagged, t, i) by {
        // the window is longer than the text
        assert(tagged.len() > t.len());
    }
}

/// Case insensitivity: a term's matches depend only on its folded form.
pub proof fn lemma_case_insensitive(t1: Seq<char>, t2: Seq<char>, text: Seq<char>)
    requires
        lower_seq(t1) == lower_seq(t2),
    ensures
        term_matches(t1, text) == term_matches(t2, text),
{
    assert(lower_seq(t1).len() == t1.len());
    assert(lower_seq(t2).len() == t2.len());
    assert(t1.len() == t2.len());
    assert forall|i: int| match_at(t1, text, i) implies match_at(t2, text, i) by {
        assert forall|j: int| 0 <= j < t2.len() implies lower_char(text[i + j]) == lower_char(
            t2[j],
        ) by {
            assert(lower_char(t1[j]) == lower_seq(t1)[j]);
            assert(lower_char(t2[j]) == lower_seq(t2)[j]);
            assert(lower_char(text[i + j]) == lower_char(t1[j]));
        }
    }
    assert forall|i: int| match_at(t2, text, i) implies match_at(t1, text, i) by {
        assert forall|j: int| 0 <= j < t1.len() implies lower_char(text[i + j]) == lower_char(
            t1[j],
        ) by {
            assert(lower_char(t1[j]) == lower_seq(t1)[j]);
            assert(lower_char(t2[j]) == lower_seq(t2)[j]);
            assert(lower_char(text[i + j]) == lower_char(t2[j]));
        }
    }
}

/// Prefix matching: any prefix of a matching term matches as well.
pub proof fn lemma_prefix_match(p: Seq<char>, t: Seq<char>, text: Seq<char>)
    requires
        p.len() <= t.len(),
        forall|j: int| 0 <= j < p.len() ==> #[trigger] p[j] == t[j],
        term_matches(t, text),
    ensures
        term_matches(p, text),
{
    let i = choose|i: int| match_at(t, text, i);
    assert(match_at(p, text, i));
}

/// Conjunction over terms, independent of their order: two queries with the
/// same set of terms match the same texts.
pub proof fn lemma_terms_order_independent(q1: Seq<char>, q2: Seq<char>, text: Seq<char>)
    requires
        forall|t: Seq<char>| query_terms(q1).contains(t) == query_terms(q2).contains(t),
    ensures
        query_matches(q1, text) == query_matches(q2, text),
{
}

} // verus!

