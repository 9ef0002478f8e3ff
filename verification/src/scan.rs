//! Scanning primitives over character vectors: finding a separator,
//! trimming surrounding blanks, copying ranges, and splitting into pieces.

use vstd::prelude::*;

verus! {

/// Blank characters inside a line: space and tab.
pub open spec fn is_blank_char(c: char) -> bool {
    c == ' ' || c == '\t'
}

/// The least index of `sep` in `s`, or `s.len()` when there is none.
pub open spec fn first_index(s: Seq<char>, sep: char) -> int
    decreases s.len(),
{
    if s.len() == 0 {
        0
    } else if s[0] == sep {
        0
    } else {
        1 + first_index(s.skip(1), sep)
    }
}

pub proof fn lemma_first_index(s: Seq<char>, sep: char)
    ensures
        0 <= first_index(s, sep) <= s.len(),
        first_index(s, sep) < s.len() ==> s[first_index(s, sep)] == sep,
        forall|j: int| 0 <= j < first_index(s, sep) ==> s[j] != sep,
    decreases s.len(),
{
    if s.len() > 0 && s[0] != sep {
        lemma_first_index(s.skip(1), sep);
        assert forall|j: int| 0 <= j < first_index(s, sep) implies s[j] != sep by {
            if j > 0 {
                assert(s.skip(1)[j - 1] != sep);
            }
        }
    }
}

/// `first_index`, bounded into `[0, s.len()]`.
pub open spec fn first_index_clipped(s: Seq<char>, sep: char) -> int {
    if 0 <= first_index(s, sep) <= s.len() {
        first_index(s, sep)
    } else {
        s.len() as int
    }
}

/// The number of leading blank characters.
pub open spec fn leading_blanks(s: Seq<char>) -> int
    decreases s.len(),
{
    if s.len() == 0 {
        0
    } else if is_blank_char(s[0]) {
        1 + leading_blanks(s.skip(1))
    } else {
        0
    }
}

/// The number of trailing blank characters.
pub open spec fn trailing_blanks(s: Seq<char>) -> int
    decreases s.len(),
{
    if s.len() == 0 {
        0
    } else if is_blank_char(s.last()) {
        1 + trailing_blanks(s.drop_last())
    } else {
        0
    }
}

pub proof fn lemma_leading_blanks(s: Seq<char>)
    ensures
        0 <= leading_blanks(s) <= s.len(),
        forall|j: int| 0 <= j < leading_blanks(s) ==> is_blank_char(#[trigger] s[j]),
        leading_blanks(s) < s.len() ==> !is_blank_char(s[leading_blanks(s)]),
    decreases s.len(),
{
    if s.len() > 0 && is_blank_char(s[0]) {
        lemma_leading_blanks(s.skip(1));
        assert forall|j: int| 0 <= j < leading_blanks(s) implies is_blank_char(#[trigger] s[j]) by {
            if j > 0 {
                assert(is_blank_char(s.skip(1)[j - 1]));
            }
        }
        if leading_blanks(s) < s.len() {
            assert(s.skip(1)[leading_blanks(s) - 1] == s[leading_blanks(s)]);
        }
    }
}

pub proof fn lemma_trailing_blanks(s: Seq<char>)
    ensures
        0 <= trailing_blanks(s) <= s.len(),
        forall|j: int|
            s.len() - trailing_blanks(s) <= j < s.len() ==> is_blank_char(#[trigger] s[j]),
        trailing_blanks(s) < s.len() ==> !is_blank_char(s[s.len() - trailing_blanks(s) - 1]),
    decreases s.len(),
{
    if s.len() > 0 && is_blank_char(s.last()) {
        lemma_trailing_blanks(s.drop_last());
        assert forall|j: int|
            s.len() - trailing_blanks(s) <= j < s.len() implies is_blank_char(
            #[trigger] s[j],
        ) by {
            if j < s.len() - 1 {
                assert(is_blank_char(s.drop_last()[j]));
            }
        }
    }
}

/// `s` with leading and trailing blanks removed.
pub open spec fn trim_spec(s: Seq<char>) -> Seq<char> {
    if leading_blanks(s) == s.len() {
        Seq::empty()
    } else {
        s.subrange(leading_blanks(s), s.len() - trailing_blanks(s))
    }
}

/// The trim bounds are consistent when some character is not blank.
pub proof fn lemma_trim_bounds(s: Seq<char>)
    ensures
        leading_blanks(s) < s.len() ==> leading_blanks(s) < s.len() - trailing_blanks(s),
        trim_spec(s).len() <= s.len(),
{
    lemma_leading_blanks(s);
    lemma_trailing_blanks(s);
    if leading_blanks(s) < s.len() {
        let l = leading_blanks(s);
        let h = s.len() - trailing_blanks(s);
        if h <= l {
            // then position l would be among the trailing blanks
            assert(is_blank_char(s[l]));
            assert(false);
        }
    }
}

/// Whether every character of `s` is blank.
pub open spec fn all_blank(s: Seq<char>) -> bool {
    forall|j: int| 0 <= j < s.len() ==> is_blank_char(#[trigger] s[j])
}

/// A copy of `v[a..b]`.
pub fn copy_range(v: &Vec<char>, a: usize, b: usize) -> (r: Vec<char>)
    requires
        a <= b <= v@.len(),
    ensures
        r@ == v@.subrange(a as int, b as int),
{
    let mut r: Vec<char> = Vec::new();
    let mut p: usize = a;
    while p < b
        invariant
            a <= p <= b <= v@.len(),
            r@ == v@.subrange(a as int, p as int),
        decreases b - p,
    {
        let c = v[p];
        r.push(c);
        proof {
            assert(v@.subrange(a as int, p + 1 as int) =~= v@.subrange(a as int, p as int).push(
                v@[p as int],
            ));
        }
        p += 1;
    }
    r
}

/// The position of the first `sep` at or after `from`, or `to` when there is
/// none before `to`.
pub fn find_in_range(v: &Vec<char>, from: usize, to: usize, sep: char) -> (k: usize)
    requires
        from <= to <= v@.len(),
    ensures
        k - from == first_index_clipped(v@.subrange(from as int, to as int), sep),
        from <= k <= to,
        k < to ==> v@[k as int] == sep,
        forall|j: int| from <= j < k ==> v@[j] != sep,
{
    let ghost s = v@.subrange(from as int, to as int);
    proof {
        lemma_first_index(s, sep);
    }
    let mut k: usize = from;
    while k < to && v[k] != sep
        invariant
            from <= k <= to <= v@.len(),
            forall|j: int| from <= j < k ==> v@[j] != sep,
        decreases to - k,
    {
        k += 1;
    }
    proof {
        assert(forall|j: int| 0 <= j < k - from ==> s[j] != sep);
        if k < to {
            assert(s[k - from] == sep);
        }
        if first_index(s, sep) < k - from {
            assert(s[first_index(s, sep)] != sep);
            assert(false);
        }
        if first_index(s, sep) > k - from {
            assert(k - from < s.len());
            assert(s[k - from] != sep);
            assert(false);
        }
    }
    k
}

/// A trimmed copy of `v[a..b]`.
pub fn trim_range(v: &Vec<char>, a: usize, b: usize) -> (r: Vec<char>)
    requires
        a <= b <= v@.len(),
    ensures
        r@ == trim_spec(v@.subrange(a as int, b as int)),
{
    let ghost s = v@.subrange(a as int, b as int);
    proof {
        lemma_leading_blanks(s);
        lemma_trailing_blanks(s);
        lemma_trim_bounds(s);
    }
    let mut lo: usize = a;
    while lo < b && (v[lo] == ' ' || v[lo] == '\t')
        invariant
            a <= lo <= b <= v@.len(),
            forall|j: int| a <= j < lo ==> is_blank_char(#[trigger] v@[j]),
        decreases b - lo,
    {
        lo += 1;
    }
    proof {
        // lo - a is exactly leading_blanks(s)
        assert(forall|j: int| 0 <= j < lo - a ==> is_blank_char(#[trigger] s[j]));
        if lo < b {
            assert(!is_blank_char(s[lo - a]));
        }
        if leading_blanks(s) < lo - a {
            assert(!is_blank_char(s[leading_blanks(s)]));
            assert(is_blank_char(s[leading_blanks(s)]));
            assert(false);
        }
        if leading_blanks(s) > lo - a {
            assert(lo - a < s.len());
            assert(is_blank_char(s[lo - a]));
            assert(!is_blank_char(s[lo - a]));
            assert(false);
        }
    }
    if lo == b {
        let r: Vec<char> = Vec::new();
        proof {
            assert(leading_blanks(s) == s.len());
            assert(r@ =~= trim_spec(s));
        }
        return r;
    }
    let mut hi: usize = b;
    while hi > lo && (v[hi - 1] == ' ' || v[hi - 1] == '\t')
        invariant
            a <= lo <= hi <= b <= v@.len(),
            forall|j: int| hi <= j < b ==> is_blank_char(#[trigger] v@[j]),
        decreases hi,
    {
        hi -= 1;
    }
    proof {
        // b - hi is exactly trailing_blanks(s)
        assert(forall|j: int| s.len() - (b - hi) <= j < s.len() ==> is_blank_char(#[trigger] s[j]));
        if hi > lo {
            assert(!is_blank_char(s[hi - 1 - a]));
        } else {
            assert(!is_blank_char(s[lo - a]));
            assert(is_blank_char(s[lo - a]) || hi > lo);
        }
        if trailing_blanks(s) < b - hi {
            assert(!is_blank_char(s[s.len() - trailing_blanks(s) - 1]));
            assert(s.len() - trailing_blanks(s) - 1 >= hi - a);
            assert(is_blank_char(s[s.len() - trailing_blanks(s) - 1]));
            assert(false);
        }
        if trailing_blanks(s) > b - hi {
            assert(is_blank_char(s[hi - 1 - a]));
            assert(false);
        }
    }
    let r = copy_range(v, lo, hi);
    proof {
        assert(r@ =~= trim_spec(s));
    }
    r
}

/// Whether `v[a..b]` consists of blanks only.
pub fn range_all_blank(v: &Vec<char>, a: usize, b: usize) -> (r: bool)
    requires
        a <= b <= v@.len(),
    ensures
        r == all_blank(v@.subrange(a as int, b as int)),
{
    let ghost s = v@.subrange(a as int, b as int);
    let mut p: usize = a;
    while p < b
        invariant
            a <= p <= b <= v@.len(),
            s == v@.subrange(a as int, b as int),
            forall|j: int| a <= j < p ==> is_blank_char(#[trigger] v@[j]),
        decreases b - p,
    {
        if !(v[p] == ' ' || v[p] == '\t') {
            proof {
                assert(s[p - a] == v@[p as int]);
                assert(!is_blank_char(s[p - a]));
            }
            return false;
        }
        p += 1;
    }
    assert forall|j: int| 0 <= j < s.len() implies is_blank_char(#[trigger] s[j]) by {
        assert(is_blank_char(v@[a + j]));
    }
    true
}

/// The pieces of `s` between occurrences of `sep`, each trimmed, empty
/// pieces dropped.
pub open spec fn split_list(s: Seq<char>, sep: char) -> Seq<Seq<char>>
    decreases s.len(),
{
    if s.len() == 0 {
        Seq::empty()
    } else {
        let k = first_index_clipped(s, sep);
        let piece = trim_spec(s.take(k));
        let rest = if k == s.len() {
            Seq::<char>::empty()
        } else {
            s.skip(k + 1)
        };
        let tail = split_list(rest, sep);
        if piece.len() == 0 {
            tail
        } else {
            seq![piece] + tail
        }
    }
}

/// The pieces of `v[from..to]` between occurrences of `sep`, each trimmed,
/// empty pieces dropped.
pub fn split_list_range(v: &Vec<char>, from: usize, to: usize, sep: char) -> (r: Vec<Vec<char>>)
    requires
        from <= to <= v@.len(),
    ensures
        r.deep_view() == split_list(v@.subrange(from as int, to as int), sep),
    decreases to - from,
{
    let ghost rest = v@.subrange(from as int, to as int);
    if from == to {
        let r: Vec<Vec<char>> = Vec::new();
        proof {
            assert(r.deep_view() =~~= split_list(rest, sep));
        }
        return r;
    }
    let k = find_in_range(v, from, to, sep);
    let piece = trim_range(v, from, k);
    proof {
        assert(rest.take(k - from) =~= v@.subrange(from as int, k as int));
    }
    let tail_from = if k == to {
        k
    } else {
        k + 1
    };
    let tail = split_list_range(v, tail_from, to, sep);
    proof {
        if k == to {
            assert(v@.subrange(tail_from as int, to as int) =~= Seq::<char>::empty());
        } else {
            assert(v@.subrange(tail_from as int, to as int) =~= rest.skip(k - from + 1));
        }
    }
    if piece.len() == 0 {
        tail
    } else {
        let ghost piecev = piece@;
        let ghost tailv = tail.deep_view();
        let mut r = tail;
        r.insert(0, piece);
        proof {
            assert(r.deep_view() =~~= seq![piecev] + tailv);
            assert(tailv == split_list(
                if k - from == rest.len() {
                    Seq::<char>::empty()
                } else {
                    rest.skip(k - from + 1)
                },
                sep,
            ));
            assert(split_list(rest, sep) == seq![trim_spec(rest.take(k - from))] + tailv);
        }
        r
    }
}

/// The pieces of `s` between occurrences of `sep`, kept as they stand: the
/// split of a text on line breaks.
pub open spec fn split_keep(s: Seq<char>, sep: char) -> Seq<Seq<char>>
    decreases s.len(),
{
    let k = first_index_clipped(s, sep);
    if k == s.len() {
        seq![s]
    } else {
        seq![s.take(k)] + split_keep(s.skip(k + 1), sep)
    }
}

/// The pieces of `v[from..to]` between occurrences of `sep`, kept as they
/// stand.
pub fn split_keep_range(v: &Vec<char>, from: usize, to: usize, sep: char) -> (r: Vec<Vec<char>>)
    requires
        from <= to <= v@.len(),
    ensures
        r.deep_view() == split_keep(v@.subrange(from as int, to as int), sep),
        r@.len() > 0,
    decreases to - from,
{
    let ghost rest = v@.subrange(from as int, to as int);
    let k = find_in_range(v, from, to, sep);
    let piece = copy_range(v, from, k);
    proof {
        assert(piece@ =~= rest.take(k - from));
    }
    if k == to {
        let mut r: Vec<Vec<char>> = Vec::new();
        r.push(piece);
        proof {
            assert(rest.take(k - from) =~= rest);
            assert(r.deep_view() =~~= split_keep(rest, sep));
        }
        return r;
    }
    let tail = split_keep_range(v, k + 1, to, sep);
    proof {
        assert(v@.subrange(k + 1 as int, to as int) =~= rest.skip(k - from + 1));
    }
    let ghost piecev = piece@;
    let ghost tailv = tail.deep_view();
    let mut r = tail;
    r.insert(0, piece);
    proof {
        assert(r.deep_view() =~~= seq![piecev] + tailv);
        assert(split_keep(rest, sep) == seq![rest.take(k - from)] + tailv);
    }
    r
}

} // verus!
