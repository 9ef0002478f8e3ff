//! The normalized form of a markdown document: a tree of blocks and inline
//! nodes, parsed from raw text. The dialect rewrites wiki-links
//! `[[target]]` and `[[target|alias]]` into ordinary links whose target is
//! an `obsidian://open?path=` reference; front matter is split off the top
//! of the text; plain text, outbound links and canonical markdown are read
//! off the tree.

use vstd::prelude::*;

use crate::frontmatter::{
    fm_result, key_type, FmModel, FrontMatter, FrontMatterError,
};
use crate::scan::{
    all_blank, copy_range, is_blank_char, range_all_blank, split_keep, split_keep_range,
    trim_range, trim_spec,
};
use crate::strutil::{chars_to_string, str_to_chars};

verus! {

// ---------------------------------------------------------------------------
// Finding characters and character pairs at absolute positions
// ---------------------------------------------------------------------------

/// The least `r >= from` with `s[r] == c`, or `s.len()` when there is none.
pub open spec fn find_char_at(s: Seq<char>, from: int, c: char) -> int
    decreases s.len() - from,
{
    if from < 0 || from >= s.len() {
        s.len() as int
    } else if s[from] == c {
        from
    } else {
        find_char_at(s, from + 1, c)
    }
}

pub broadcast proof fn lemma_find_char_at(s: Seq<char>, from: int, c: char)
    ensures
        0 <= from <= s.len() ==> {
            let r = #[trigger] find_char_at(s, from, c);
            &&& from <= r <= s.len()
            &&& r < s.len() ==> s[r] == c
            &&& forall|j: int| from <= j < r ==> s[j] != c
        },
    decreases s.len() - from,
{
    if 0 <= from < s.len() && s[from] != c {
        lemma_find_char_at(s, from + 1, c);
    }
}

/// The least `r >= from` with `s[r] == a && s[r + 1] == b`, or `s.len()`
/// when there is none.
pub open spec fn find_pair_at(s: Seq<char>, from: int, a: char, b: char) -> int
    decreases s.len() - from,
{
    if from < 0 || from + 2 > s.len() {
        s.len() as int
    } else if s[from] == a && s[from + 1] == b {
        from
    } else {
        find_pair_at(s, from + 1, a, b)
    }
}

pub broadcast proof fn lemma_find_pair_at(s: Seq<char>, from: int, a: char, b: char)
    ensures
        0 <= from <= s.len() ==> {
            let r = #[trigger] find_pair_at(s, from, a, b);
            &&& from <= r <= s.len()
            &&& r < s.len() ==> r + 2 <= s.len() && s[r] == a && s[r + 1] == b
            &&& forall|j: int|
                from <= j < r && j + 2 <= s.len() ==> !(#[trigger] s[j] == a && s[j + 1] == b)
        },
    decreases s.len() - from,
{
    if 0 <= from && from + 2 <= s.len() && !(s[from] == a && s[from + 1] == b) {
        lemma_find_pair_at(s, from + 1, a, b);
    }
}

/// The position of the first `c` at or after `from`, or the length when
/// there is none.
pub fn find_char(v: &Vec<char>, from: usize, c: char) -> (k: usize)
    requires
        from <= v@.len(),
    ensures
        k == find_char_at(v@, from as int, c),
{
    broadcast use lemma_find_char_at;

    let n = v.len();
    let mut k: usize = from;
    while k < n && v[k] != c
        invariant
            from <= k <= n == v@.len(),
            forall|j: int| from <= j < k ==> v@[j] != c,
        decreases n - k,
    {
        k += 1;
    }
    proof {
        let r = find_char_at(v@, from as int, c);
        if r < k {
            assert(v@[r] != c);
        }
        if r > k {
            assert(k < v@.len());
            assert(v@[k as int] != c);
        }
    }
    k
}

/// The position of the first adjacent pair `a`,`b` at or after `from`, or
/// the length when there is none.
pub fn find_pair(v: &Vec<char>, from: usize, a: char, b: char) -> (k: usize)
    requires
        from <= v@.len(),
    ensures
        k == find_pair_at(v@, from as int, a, b),
{
    broadcast use lemma_find_pair_at;

    let n = v.len();
    let mut k: usize = from;
    while k < n && n - k >= 2 && !(v[k] == a && v[k + 1] == b)
        invariant
            from <= k <= n == v@.len(),
            forall|j: int|
                from <= j < k && j + 2 <= v@.len() ==> !(#[trigger] v@[j] == a && v@[j + 1] == b),
        decreases n - k,
    {
        k += 1;
    }
    let r = if k < n && n - k >= 2 {
        k
    } else {
        n
    };
    proof {
        let f = find_pair_at(v@, from as int, a, b);
        if r < n {
            if f < r {
                assert(!(v@[f] == a && v@[f + 1] == b));
            }
            if f > r {
                assert(r + 2 <= v@.len());
                assert(!(v@[r as int] == a && v@[r as int + 1] == b));
            }
        } else {
            if f < n {
                assert(f + 2 <= v@.len());
                assert(v@[f] == a && v@[f + 1] == b);
                assert(f >= k || !(v@[f] == a && v@[f + 1] == b));
                assert(f >= k);
                assert(f + 1 < n);
                assert(false);
            }
        }
    }
    r
}

// ---------------------------------------------------------------------------
// Inline nodes
// ---------------------------------------------------------------------------

/// The mathematical value of a link: display text, target, title.
#[verifier::ext_equal]
pub struct LinkModel {
    pub text: Seq<char>,
    pub url: Seq<char>,
    pub title: Seq<char>,
}

/// An outbound link of a document: display text, target reference, and the
/// (usually empty) link title.
pub struct Link {
    text: Vec<char>,
    url: Vec<char>,
    title: Vec<char>,
}

impl Link {
    /// The mathematical value this link holds.
    pub closed spec fn model(&self) -> LinkModel {
        LinkModel { text: self.text@, url: self.url@, title: self.title@ }
    }

    /// The display text.
    pub fn text(&self) -> (r: String)
        ensures
            r@ == self.model().text,
    {
        chars_to_string(&self.text)
    }

    /// The target reference.
    pub fn url(&self) -> (r: String)
        ensures
            r@ == self.model().url,
    {
        chars_to_string(&self.url)
    }

    /// The link title.
    pub fn title(&self) -> (r: String)
        ensures
            r@ == self.model().title,
    {
        chars_to_string(&self.title)
    }

    /// A link built from its parts.
    pub fn new(text: Vec<char>, url: Vec<char>, title: Vec<char>) -> (r: Link)
        ensures
            r.model() == (LinkModel { text: text@, url: url@, title: title@ }),
    {
        Link { text, url, title }
    }
}

/// The mathematical value of one inline node.
#[verifier::ext_equal]
pub enum InlineModel {
    Text(Seq<char>),
    Code(Seq<char>),
    Link(LinkModel),
    SoftBreak,
}

/// One inline node: a literal character, an inline code span, a link, or a
/// soft line break inside a paragraph.
pub enum Inline {
    Text(char),
    Code(Vec<char>),
    Link(Link),
    SoftBreak,
}

pub open spec fn inline_view(i: &Inline) -> InlineModel {
    match i {
        Inline::Text(c) => InlineModel::Text(seq![*c]),
        Inline::Code(v) => InlineModel::Code(v@),
        Inline::Link(l) => InlineModel::Link(l.model()),
        Inline::SoftBreak => InlineModel::SoftBreak,
    }
}

pub open spec fn inlines_view(s: Seq<Inline>) -> Seq<InlineModel> {
    Seq::new(s.len(), |i: int| inline_view(&s[i]))
}

/// The target prefix every rewritten wiki-link carries.
pub open spec fn obsidian_prefix() -> Seq<char> {
    seq![
        'o', 'b', 's', 'i', 'd', 'i', 'a', 'n', ':', '/', '/', 'o', 'p', 'e', 'n', '?', 'p', 'a',
        't', 'h', '=',
    ]
}

/// The link a wiki-link with the given inner text rewrites to: the part
/// before `|`, trimmed, becomes the target; the part between the first and
/// second `|`, trimmed, becomes the display text when present, else the
/// inner text itself does.
pub open spec fn wiki_inline(inner: Seq<char>) -> InlineModel {
    let p1 = find_char_at(inner, 0, '|');
    let target = trim_spec(inner.subrange(0, p1));
    let display = if p1 == inner.len() {
        inner
    } else {
        trim_spec(inner.subrange(p1 + 1, find_char_at(inner, p1 + 1, '|')))
    };
    InlineModel::Link(
        LinkModel { text: display, url: obsidian_prefix() + target, title: Seq::empty() },
    )
}

/// Whether an http or https autolink begins at `i`.
pub open spec fn url_starts_at(s: Seq<char>, i: int) -> bool {
    ||| (i + 7 <= s.len() && s[i] == 'h' && s[i + 1] == 't' && s[i + 2] == 't' && s[i + 3] == 'p'
        && s[i + 4] == ':' && s[i + 5] == '/' && s[i + 6] == '/')
    ||| (i + 8 <= s.len() && s[i] == 'h' && s[i + 1] == 't' && s[i + 2] == 't' && s[i + 3] == 'p'
        && s[i + 4] == 's' && s[i + 5] == ':' && s[i + 6] == '/' && s[i + 7] == '/')
}

/// The inline nodes of `s` from position `from` on. `boundary` says whether
/// an autolink may begin right here (start of line, or right after a
/// space).
pub open spec fn parse_inlines_at(s: Seq<char>, from: int, boundary: bool) -> Seq<InlineModel>
    decreases s.len() - from,
    via parse_inlines_at_decreases
{
    if from < 0 || from >= s.len() {
        Seq::empty()
    } else if s[from] == '[' && from + 1 < s.len() && s[from + 1] == '[' && find_pair_at(
        s,
        from + 2,
        ']',
        ']',
    ) < s.len() {
        let e = find_pair_at(s, from + 2, ']', ']');
        seq![wiki_inline(s.subrange(from + 2, e))] + parse_inlines_at(s, e + 2, false)
    } else if s[from] == '[' && md_link_ok(s, from) {
        let b = find_char_at(s, from + 1, ']');
        let c = find_char_at(s, b + 2, ')');
        seq![
            InlineModel::Link(
                LinkModel {
                    text: s.subrange(from + 1, b),
                    url: s.subrange(b + 2, c),
                    title: Seq::empty(),
                },
            ),
        ] + parse_inlines_at(s, c + 1, false)
    } else if s[from] == '`' && find_char_at(s, from + 1, '`') < s.len() {
        let e = find_char_at(s, from + 1, '`');
        seq![InlineModel::Code(s.subrange(from + 1, e))] + parse_inlines_at(s, e + 1, false)
    } else if boundary && url_starts_at(s, from) {
        let e = find_char_at(s, from + 1, ' ');
        seq![
            InlineModel::Link(
                LinkModel {
                    text: s.subrange(from, e),
                    url: s.subrange(from, e),
                    title: Seq::empty(),
                },
            ),
        ] + parse_inlines_at(s, e, false)
    } else {
        seq![InlineModel::Text(seq![s[from]])] + parse_inlines_at(s, from + 1, is_blank_char(s[from]))
    }
}

#[via_fn]
proof fn parse_inlines_at_decreases(s: Seq<char>, from: int, boundary: bool) {
    broadcast use lemma_find_char_at, lemma_find_pair_at;

}

/// Whether an ordinary `[text](url)` link begins at `i`.
pub open spec fn md_link_ok(s: Seq<char>, i: int) -> bool {
    let b = find_char_at(s, i + 1, ']');
    &&& b < s.len()
    &&& b + 1 < s.len()
    &&& s[b + 1] == '('
    &&& find_char_at(s, b + 2, ')') < s.len()
}

/// An ordinary character at `from` parses to a text node before the rest.
proof fn lemma_parse_inlines_text(s: Seq<char>, from: int, boundary: bool)
    requires
        0 <= from < s.len(),
        !(s[from] == '[' && from + 1 < s.len() && s[from + 1] == '[' && find_pair_at(
            s,
            from + 2,
            ']',
            ']',
        ) < s.len()),
        !(s[from] == '[' && md_link_ok(s, from)),
        !(s[from] == '`' && find_char_at(s, from + 1, '`') < s.len()),
        !(boundary && url_starts_at(s, from)),
    ensures
        parse_inlines_at(s, from, boundary) == seq![InlineModel::Text(seq![s[from]])]
            + parse_inlines_at(s, from + 1, is_blank_char(s[from])),
{
}

/// The inline nodes of `v` from position `from` on.
#[verifier::rlimit(80)]
pub fn parse_inlines(v: &Vec<char>, from: usize, boundary: bool) -> (r: Vec<Inline>)
    requires
        from <= v@.len(),
    ensures
        inlines_view(r@) == parse_inlines_at(v@, from as int, boundary),
    decreases v@.len() - from,
{
    broadcast use lemma_find_char_at, lemma_find_pair_at;

    let n = v.len();
    if from == n {
        let r: Vec<Inline> = Vec::new();
        proof {
            assert(inlines_view(r@) =~= parse_inlines_at(v@, from as int, boundary));
        }
        return r;
    }
    let c0 = v[from];
    if c0 == '[' && from + 1 < n && v[from + 1] == '[' {
        let e = find_pair(v, from + 2, ']', ']');
        if e < n {
            let inner = copy_range(v, from + 2, e);
            let head = wiki_link_of(&inner);
            let tail = parse_inlines(v, e + 2, false);
            return cons_inline(head, tail, Ghost(parse_inlines_at(v@, from as int, boundary)));
        }
    }
    if c0 == '[' {
        let b = find_char(v, from + 1, ']');
        if b < n && b + 1 < n && v[b + 1] == '(' {
            let c = find_char(v, b + 2, ')');
            if c < n {
                let text = copy_range(v, from + 1, b);
                let url = copy_range(v, b + 2, c);
                let head = Inline::Link(Link { text, url, title: Vec::new() });
                let tail = parse_inlines(v, c + 1, false);
                return cons_inline(head, tail, Ghost(parse_inlines_at(v@, from as int, boundary)));
            }
        }
        proof {
            assert(!md_link_ok(v@, from as int));
        }
    }
    if c0 == '`' {
        let e = find_char(v, from + 1, '`');
        if e < n {
            let lit = copy_range(v, from + 1, e);
            let head = Inline::Code(lit);
            let tail = parse_inlines(v, e + 1, false);
            return cons_inline(head, tail, Ghost(parse_inlines_at(v@, from as int, boundary)));
        }
    }
    if boundary && url_start(v, from) {
        let e = find_char(v, from + 1, ' ');
        let word = copy_range(v, from, e);
        let url = copy_range(v, from, e);
        let head = Inline::Link(Link { text: word, url, title: Vec::new() });
        let tail = parse_inlines(v, e, false);
        return cons_inline(head, tail, Ghost(parse_inlines_at(v@, from as int, boundary)));
    }
    let head = Inline::Text(c0);
    let tail = parse_inlines(v, from + 1, c0 == ' ' || c0 == '\t');
    proof {
        let s = v@;
        let f = from as int;
        assert(0 <= f < s.len());
        assert(!(s[f] == '[' && f + 1 < s.len() && s[f + 1] == '[' && find_pair_at(
            s,
            f + 2,
            ']',
            ']',
        ) < s.len()));
        assert(!(s[f] == '[' && md_link_ok(s, f)));
        assert(!(s[f] == '`' && find_char_at(s, f + 1, '`') < s.len()));
        assert(!(boundary && url_starts_at(s, f)));
        lemma_parse_inlines_text(s, f, boundary);
    }
    cons_inline(head, tail, Ghost(parse_inlines_at(v@, from as int, boundary)))
}

/// Whether an http or https autolink begins at `i`.
fn url_start(v: &Vec<char>, i: usize) -> (r: bool)
    requires
        i < v@.len(),
    ensures
        r == url_starts_at(v@, i as int),
{
    let n = v.len();
    if n - i >= 7 && v[i] == 'h' && v[i + 1] == 't' && v[i + 2] == 't' && v[i + 3] == 'p' && v[i
        + 4] == ':' && v[i + 5] == '/' && v[i + 6] == '/' {
        return true;
    }
    if n - i >= 8 && v[i] == 'h' && v[i + 1] == 't' && v[i + 2] == 't' && v[i + 3] == 'p' && v[i
        + 4] == 's' && v[i + 5] == ':' && v[i + 6] == '/' && v[i + 7] == '/' {
        return true;
    }
    false
}

/// The head inline put before the tail, whose joint view is claimed equal
/// to `goal`.
fn cons_inline(head: Inline, tail: Vec<Inline>, Ghost(goal): Ghost<Seq<InlineModel>>) -> (r: Vec<
    Inline,
>)
    requires
        goal =~= seq![inline_view(&head)] + inlines_view(tail@),
    ensures
        inlines_view(r@) == goal,
{
    let ghost headm = inline_view(&head);
    let ghost tailv = tail@;
    let mut r = tail;
    r.insert(0, head);
    proof {
        assert(r@ =~= seq![head] + tailv);
        assert forall|j: int| 0 <= j < r@.len() implies inlines_view(r@)[j] == goal[j] by {
            assert(inlines_view(r@)[j] == inline_view(&r@[j]));
            if j > 0 {
                assert(r@[j] == tailv[j - 1]);
                assert(inlines_view(tailv)[j - 1] == inline_view(&tailv[j - 1]));
            }
        }
        assert(inlines_view(r@) =~= goal);
    }
    r
}

/// The rewritten form of the wiki-link with this inner text.
fn wiki_link_of(inner: &Vec<char>) -> (r: Inline)
    ensures
        inline_view(&r) == wiki_inline(inner@),
{
    broadcast use lemma_find_char_at;

    let n = inner.len();
    let p1 = find_char(inner, 0, '|');
    let target = trim_range(inner, 0, p1);
    let display: Vec<char> = if p1 == n {
        copy_range(inner, 0, n)
    } else {
        let p2 = find_char(inner, p1 + 1, '|');
        trim_range(inner, p1 + 1, p2)
    };
    proof {
        if p1 == inner@.len() {
            assert(inner@.subrange(0, inner@.len() as int) =~= inner@);
        }
    }
    let url = obsidian_url(target);
    Inline::Link(Link { text: display, url, title: Vec::new() })
}

/// The `obsidian://open?path=` reference for a wiki-link target.
pub fn obsidian_url(target: Vec<char>) -> (r: Vec<char>)
    ensures
        r@ == obsidian_prefix() + target@,
{
    let ghost targetv = target@;
    let mut r: Vec<char> = Vec::new();
    r.push('o');
    r.push('b');
    r.push('s');
    r.push('i');
    r.push('d');
    r.push('i');
    r.push('a');
    r.push('n');
    r.push(':');
    r.push('/');
    r.push('/');
    r.push('o');
    r.push('p');
    r.push('e');
    r.push('n');
    r.push('?');
    r.push('p');
    r.push('a');
    r.push('t');
    r.push('h');
    r.push('=');
    proof {
        assert(r@ =~= obsidian_prefix());
    }
    let mut target = target;
    r.append(&mut target);
    r
}

} // verus!

verus! {

// ---------------------------------------------------------------------------
// Block structure
// ---------------------------------------------------------------------------

/// The mathematical value of one block.
#[verifier::ext_equal]
pub enum BlockModel {
    Heading(int, Seq<InlineModel>),
    Paragraph(Seq<InlineModel>),
    Code(Seq<char>, Seq<char>),
}

/// One block of a document: a heading with its level, a paragraph, or a
/// fenced code block with its info string and literal contents.
pub enum Block {
    Heading(u8, Vec<Inline>),
    Paragraph(Vec<Inline>),
    Code(Vec<char>, Vec<char>),
}

pub open spec fn block_view(b: &Block) -> BlockModel {
    match b {
        Block::Heading(h, is) => BlockModel::Heading(*h as int, inlines_view(is@)),
        Block::Paragraph(is) => BlockModel::Paragraph(inlines_view(is@)),
        Block::Code(info, lit) => BlockModel::Code(info@, lit@),
    }
}

pub open spec fn blocks_view(s: Seq<Block>) -> Seq<BlockModel> {
    Seq::new(s.len(), |i: int| block_view(&s[i]))
}

/// The number of leading `#` characters.
pub open spec fn leading_hashes(s: Seq<char>) -> int
    decreases s.len(),
{
    if s.len() == 0 {
        0
    } else if s[0] == '#' {
        1 + leading_hashes(s.skip(1))
    } else {
        0
    }
}

pub broadcast proof fn lemma_leading_hashes(s: Seq<char>)
    ensures
        0 <= #[trigger] leading_hashes(s) <= s.len(),
        forall|j: int| 0 <= j < leading_hashes(s) ==> #[trigger] s[j] == '#',
        leading_hashes(s) < s.len() ==> s[leading_hashes(s)] != '#',
    decreases s.len(),
{
    if s.len() > 0 && s[0] == '#' {
        lemma_leading_hashes(s.skip(1));
        assert forall|j: int| 0 <= j < leading_hashes(s) implies #[trigger] s[j] == '#' by {
            if j > 0 {
                assert(s.skip(1)[j - 1] == '#');
            }
        }
        if leading_hashes(s) < s.len() {
            assert(s.skip(1)[leading_hashes(s) - 1] == s[leading_hashes(s)]);
        }
    }
}

/// A heading line: one to six `#` marks followed by a space.
pub open spec fn is_heading(line: Seq<char>) -> bool {
    let h = leading_hashes(line);
    1 <= h <= 6 && h < line.len() && line[h] == ' '
}

/// A code fence line.
pub open spec fn is_fence(line: Seq<char>) -> bool {
    line.len() >= 3 && line[0] == '`' && line[1] == '`' && line[2] == '`'
}

/// The front-matter delimiter line.
pub open spec fn is_fm_delim(line: Seq<char>) -> bool {
    line == seq!['-', '-', '-']
}

/// A line that ends a paragraph.
pub open spec fn block_stop(line: Seq<char>) -> bool {
    all_blank(line) || is_heading(line) || is_fence(line)
}

/// The first fence line at or after `from`, or the number of lines.
pub open spec fn find_fence(lines: Seq<Seq<char>>, from: int) -> int
    decreases lines.len() - from,
{
    if from < 0 || from >= lines.len() {
        lines.len() as int
    } else if is_fence(lines[from]) {
        from
    } else {
        find_fence(lines, from + 1)
    }
}

pub broadcast proof fn lemma_find_fence(lines: Seq<Seq<char>>, from: int)
    ensures
        0 <= from <= lines.len() ==> {
            let r = #[trigger] find_fence(lines, from);
            &&& from <= r <= lines.len()
            &&& r < lines.len() ==> is_fence(lines[r])
            &&& forall|j: int| from <= j < r ==> !is_fence(#[trigger] lines[j])
        },
    decreases lines.len() - from,
{
    if 0 <= from < lines.len() && !is_fence(lines[from]) {
        lemma_find_fence(lines, from + 1);
    }
}

/// The first paragraph-ending line at or after `from`, or the number of
/// lines.
pub open spec fn para_end(lines: Seq<Seq<char>>, from: int) -> int
    decreases lines.len() - from,
{
    if from < 0 || from >= lines.len() {
        lines.len() as int
    } else if block_stop(lines[from]) {
        from
    } else {
        para_end(lines, from + 1)
    }
}

pub broadcast proof fn lemma_para_end(lines: Seq<Seq<char>>, from: int)
    ensures
        0 <= from <= lines.len() ==> {
            let r = #[trigger] para_end(lines, from);
            &&& from <= r <= lines.len()
            &&& r < lines.len() ==> block_stop(lines[r])
            &&& forall|j: int| from <= j < r ==> !block_stop(#[trigger] lines[j])
        },
    decreases lines.len() - from,
{
    if 0 <= from < lines.len() && !block_stop(lines[from]) {
        lemma_para_end(lines, from + 1);
    }
}

/// The first front-matter delimiter line at or after `from`, or the number
/// of lines.
pub open spec fn find_delim(lines: Seq<Seq<char>>, from: int) -> int
    decreases lines.len() - from,
{
    if from < 0 || from >= lines.len() {
        lines.len() as int
    } else if is_fm_delim(lines[from]) {
        from
    } else {
        find_delim(lines, from + 1)
    }
}

pub broadcast proof fn lemma_find_delim(lines: Seq<Seq<char>>, from: int)
    ensures
        0 <= from <= lines.len() ==> {
            let r = #[trigger] find_delim(lines, from);
            &&& from <= r <= lines.len()
            &&& r < lines.len() ==> is_fm_delim(lines[r])
            &&& forall|j: int| from <= j < r ==> !is_fm_delim(#[trigger] lines[j])
        },
    decreases lines.len() - from,
{
    if 0 <= from < lines.len() && !is_fm_delim(lines[from]) {
        lemma_find_delim(lines, from + 1);
    }
}

/// The lines `from..to` joined, each with a line break after it.
pub open spec fn join_nl(lines: Seq<Seq<char>>, from: int, to: int) -> Seq<char>
    decreases to - from,
{
    if to <= from {
        Seq::empty()
    } else {
        join_nl(lines, from, to - 1) + lines[to - 1] + seq!['\n']
    }
}

/// The inline nodes of the paragraph lines `from..to`, soft breaks between
/// the lines.
pub open spec fn para_inlines(lines: Seq<Seq<char>>, from: int, to: int) -> Seq<InlineModel>
    decreases to - from,
{
    if to <= from {
        Seq::empty()
    } else if to == from + 1 {
        parse_inlines_at(lines[from], 0, true)
    } else {
        para_inlines(lines, from, to - 1) + seq![InlineModel::SoftBreak] + parse_inlines_at(
            lines[to - 1],
            0,
            true,
        )
    }
}

/// The blocks of the lines from `from` on.
pub open spec fn parse_blocks_at(lines: Seq<Seq<char>>, from: int) -> Seq<BlockModel>
    decreases lines.len() - from,
    via parse_blocks_at_decreases
{
    if from < 0 || from >= lines.len() {
        Seq::empty()
    } else if all_blank(lines[from]) {
        parse_blocks_at(lines, from + 1)
    } else if is_heading(lines[from]) {
        let h = leading_hashes(lines[from]);
        seq![BlockModel::Heading(h, parse_inlines_at(trim_spec(lines[from].skip(h)), 0, true))]
            + parse_blocks_at(lines, from + 1)
    } else if is_fence(lines[from]) {
        let close = find_fence(lines, from + 1);
        let info = trim_spec(lines[from].skip(3));
        let lit = join_nl(lines, from + 1, close);
        let next = if close < lines.len() {
            close + 1
        } else {
            close
        };
        seq![BlockModel::Code(info, lit)] + parse_blocks_at(lines, next)
    } else {
        let e = para_end(lines, from);
        seq![BlockModel::Paragraph(para_inlines(lines, from, e))] + parse_blocks_at(lines, e)
    }
}

#[via_fn]
proof fn parse_blocks_at_decreases(lines: Seq<Seq<char>>, from: int) {
    broadcast use lemma_find_fence, lemma_para_end;

}

} // verus!

verus! {

/// The number of leading `#` characters.
fn count_hashes(line: &Vec<char>) -> (h: usize)
    ensures
        h == leading_hashes(line@),
{
    broadcast use lemma_leading_hashes;

    let n = line.len();
    let mut h: usize = 0;
    while h < n && line[h] == '#'
        invariant
            h <= n == line@.len(),
            forall|j: int| 0 <= j < h ==> #[trigger] line@[j] == '#',
        decreases n - h,
    {
        h += 1;
    }
    proof {
        let r = leading_hashes(line@);
        if r < h {
            assert(line@[r] != '#');
        }
        if r > h {
            assert(h < line@.len());
            assert(line@[h as int] == '#');
        }
    }
    h
}

/// Whether the line is a code fence line.
fn fence_line(line: &Vec<char>) -> (r: bool)
    ensures
        r == is_fence(line@),
{
    line.len() >= 3 && line[0] == '`' && line[1] == '`' && line[2] == '`'
}

/// Whether the line is the front-matter delimiter.
fn fm_delim_line(line: &Vec<char>) -> (r: bool)
    ensures
        r == is_fm_delim(line@),
{
    if line.len() == 3 && line[0] == '-' && line[1] == '-' && line[2] == '-' {
        proof {
            assert(line@ =~= seq!['-', '-', '-']);
        }
        true
    } else {
        proof {
            if line@ == seq!['-', '-', '-'] {
                assert(line@.len() == 3);
                assert(line@[0] == '-' && line@[1] == '-' && line@[2] == '-');
            }
        }
        false
    }
}

/// Whether the line ends a paragraph.
fn stop_line(line: &Vec<char>) -> (r: bool)
    ensures
        r == block_stop(line@),
{
    let n = line.len();
    if range_all_blank(line, 0, n) {
        proof {
            assert(line@.subrange(0, n as int) =~= line@);
        }
        return true;
    }
    proof {
        assert(line@.subrange(0, n as int) =~= line@);
    }
    let h = count_hashes(line);
    if 1 <= h && h <= 6 && h < n && line[h] == ' ' {
        return true;
    }
    fence_line(line)
}

/// The first fence line at or after `from`, or the number of lines.
fn find_fence_line(lines: &Vec<Vec<char>>, from: usize) -> (k: usize)
    requires
        from <= lines@.len(),
    ensures
        k == find_fence(lines.deep_view(), from as int),
{
    broadcast use lemma_find_fence;

    let ghost lv = lines.deep_view();
    let n = lines.len();
    let mut k: usize = from;
    let mut found = false;
    while k < n && !found
        invariant
            from <= k <= n == lv.len(),
            lv == lines.deep_view(),
            forall|j: int| from <= j < k ==> !is_fence(#[trigger] lv[j]),
            found ==> k < n && is_fence(lv[k as int]),
        decreases n - k + (if found {
            0int
        } else {
            1int
        }),
    {
        proof {
            assert(lines@[k as int]@ == lv[k as int]);
        }
        if fence_line(&lines[k]) {
            found = true;
        } else {
            k += 1;
        }
    }
    proof {
        let r = find_fence(lv, from as int);
        if r < k {
            assert(!is_fence(lv[r]));
        }
        if r > k {
            assert(k < lv.len());
            assert(!is_fence(lv[k as int]));
        }
    }
    k
}

/// The first paragraph-ending line at or after `from`, or the number of
/// lines.
fn para_end_line(lines: &Vec<Vec<char>>, from: usize) -> (k: usize)
    requires
        from <= lines@.len(),
    ensures
        k == para_end(lines.deep_view(), from as int),
{
    broadcast use lemma_para_end;

    let ghost lv = lines.deep_view();
    let n = lines.len();
    let mut k: usize = from;
    let mut found = false;
    while k < n && !found
        invariant
            from <= k <= n == lv.len(),
            lv == lines.deep_view(),
            forall|j: int| from <= j < k ==> !block_stop(#[trigger] lv[j]),
            found ==> k < n && block_stop(lv[k as int]),
        decreases n - k + (if found {
            0int
        } else {
            1int
        }),
    {
        proof {
            assert(lines@[k as int]@ == lv[k as int]);
        }
        if stop_line(&lines[k]) {
            found = true;
        } else {
            k += 1;
        }
    }
    proof {
        let r = para_end(lv, from as int);
        if r < k {
            assert(!block_stop(lv[r]));
        }
        if r > k {
            assert(k < lv.len());
            assert(!block_stop(lv[k as int]));
        }
    }
    k
}

/// The lines `from..to` joined, each with a line break after it.
fn join_lines(lines: &Vec<Vec<char>>, from: usize, to: usize) -> (r: Vec<char>)
    requires
        from <= to <= lines@.len(),
    ensures
        r@ == join_nl(lines.deep_view(), from as int, to as int),
{
    let ghost lv = lines.deep_view();
    let mut r: Vec<char> = Vec::new();
    let mut p: usize = from;
    proof {
        assert(r@ =~= join_nl(lv, from as int, from as int));
    }
    while p < to
        invariant
            from <= p <= to <= lv.len(),
            lv == lines.deep_view(),
            r@ == join_nl(lv, from as int, p as int),
        decreases to - p,
    {
        proof {
            assert(lines@[p as int]@ == lv[p as int]);
        }
        let mut piece = copy_range(&lines[p], 0, lines[p].len());
        proof {
            assert(piece@ =~= lv[p as int]);
        }
        r.append(&mut piece);
        push_char_vec(&mut r, '\n');
        p += 1;
    }
    r
}

/// Push one character; a named helper so the spec stays readable.
fn push_char_vec(v: &mut Vec<char>, c: char)
    ensures
        final(v)@ == old(v)@ + seq![c],
{
    v.push(c);
    proof {
        assert(final(v)@ =~= old(v)@ + seq![c]);
    }
}

/// The inline nodes of the paragraph lines `from..to`.
fn para_inlines_exec(lines: &Vec<Vec<char>>, from: usize, to: usize) -> (r: Vec<Inline>)
    requires
        from <= to <= lines@.len(),
    ensures
        inlines_view(r@) == para_inlines(lines.deep_view(), from as int, to as int),
{
    let ghost lv = lines.deep_view();
    let mut r: Vec<Inline> = Vec::new();
    let mut p: usize = from;
    proof {
        assert(inlines_view(r@) =~= para_inlines(lv, from as int, from as int));
    }
    while p < to
        invariant
            from <= p <= to <= lv.len(),
            lv == lines.deep_view(),
            inlines_view(r@) == para_inlines(lv, from as int, p as int),
        decreases to - p,
    {
        proof {
            assert(lines@[p as int]@ == lv[p as int]);
        }
        let ghost before = inlines_view(r@);
        if p > from {
            r.push(Inline::SoftBreak);
            proof {
                assert(inlines_view(r@) =~= before + seq![InlineModel::SoftBreak]);
            }
        }
        let ghost mid = inlines_view(r@);
        let mut part = parse_inlines(&lines[p], 0, true);
        let ghost partseq = part@;
        let ghost partv = inlines_view(part@);
        let ghost rv = r@;
        r.append(&mut part);
        proof {
            assert forall|j: int| 0 <= j < r@.len() implies inlines_view(r@)[j] == (mid
                + partv)[j] by {
                assert(r@[j] == (rv + partseq)[j]);
                if j < rv.len() {
                    assert(inlines_view(rv)[j] == inline_view(&rv[j]));
                } else {
                    assert(inlines_view(partseq)[j - rv.len()] == inline_view(
                        &partseq[j - rv.len()],
                    ));
                }
            }
            assert(inlines_view(r@) =~= mid + partv);
            if p == from {
                assert(inlines_view(r@) =~= para_inlines(lv, from as int, p + 1 as int));
            } else {
                assert(inlines_view(r@) =~= para_inlines(lv, from as int, p as int) + seq![
                    InlineModel::SoftBreak,
                ] + partv);
                assert(inlines_view(r@) =~= para_inlines(lv, from as int, p + 1 as int));
            }
        }
        p += 1;
    }
    r
}

/// The head block put before the tail, whose joint view is claimed equal to
/// `goal`.
fn cons_block(head: Block, tail: Vec<Block>, Ghost(goal): Ghost<Seq<BlockModel>>) -> (r: Vec<
    Block,
>)
    requires
        goal =~= seq![block_view(&head)] + blocks_view(tail@),
    ensures
        blocks_view(r@) == goal,
{
    let ghost tailv = tail@;
    let mut r = tail;
    r.insert(0, head);
    proof {
        assert(r@ =~= seq![head] + tailv);
        assert forall|j: int| 0 <= j < r@.len() implies blocks_view(r@)[j] == goal[j] by {
            assert(blocks_view(r@)[j] == block_view(&r@[j]));
            if j > 0 {
                assert(r@[j] == tailv[j - 1]);
                assert(blocks_view(tailv)[j - 1] == block_view(&tailv[j - 1]));
            }
        }
        assert(blocks_view(r@) =~= goal);
    }
    r
}

/// The blocks of the lines from `from` on.
#[verifier::rlimit(80)]
pub fn parse_blocks(lines: &Vec<Vec<char>>, from: usize) -> (r: Vec<Block>)
    requires
        from <= lines@.len(),
    ensures
        blocks_view(r@) == parse_blocks_at(lines.deep_view(), from as int),
    decreases lines@.len() - from,
{
    broadcast use lemma_find_fence, lemma_para_end, lemma_leading_hashes;

    let ghost lv = lines.deep_view();
    let n = lines.len();
    if from == n {
        let r: Vec<Block> = Vec::new();
        proof {
            assert(blocks_view(r@) =~= parse_blocks_at(lv, from as int));
        }
        return r;
    }
    proof {
        assert(lines@[from as int]@ == lv[from as int]);
    }
    let line = &lines[from];
    let ln = line.len();
    if range_all_blank(line, 0, ln) {
        proof {
            assert(line@.subrange(0, ln as int) =~= line@);
        }
        return parse_blocks(lines, from + 1);
    }
    proof {
        assert(line@.subrange(0, ln as int) =~= line@);
    }
    let h = count_hashes(line);
    if 1 <= h && h <= 6 && h < ln && line[h] == ' ' {
        let content = trim_range(line, h, ln);
        proof {
            assert(line@.subrange(h as int, ln as int) =~= line@.skip(h as int));
        }
        let inls = parse_inlines(&content, 0, true);
        let head = Block::Heading(h as u8, inls);
        let tail = parse_blocks(lines, from + 1);
        return cons_block(head, tail, Ghost(parse_blocks_at(lv, from as int)));
    }
    if fence_line(line) {
        let close = find_fence_line(lines, from + 1);
        let info = trim_range(line, 3, ln);
        proof {
            assert(line@.subrange(3, ln as int) =~= line@.skip(3));
        }
        let lit = join_lines(lines, from + 1, close);
        let next = if close < n {
            close + 1
        } else {
            close
        };
        let head = Block::Code(info, lit);
        let tail = parse_blocks(lines, next);
        return cons_block(head, tail, Ghost(parse_blocks_at(lv, from as int)));
    }
    let e = para_end_line(lines, from);
    proof {
        assert(!block_stop(lv[from as int]));
        assert(e > from);
    }
    let inls = para_inlines_exec(lines, from, e);
    let head = Block::Paragraph(inls);
    let tail = parse_blocks(lines, e);
    cons_block(head, tail, Ghost(parse_blocks_at(lv, from as int)))
}

} // verus!

verus! {

// ---------------------------------------------------------------------------
// Reading the tree: plain text, links, canonical markdown
// ---------------------------------------------------------------------------

/// The literal content one inline node contributes to the plain text.
pub open spec fn inline_text(i: InlineModel) -> Seq<char> {
    match i {
        InlineModel::Text(s) => s,
        InlineModel::Code(s) => s,
        InlineModel::Link(l) => l.text,
        InlineModel::SoftBreak => Seq::empty(),
    }
}

pub open spec fn inlines_text(s: Seq<InlineModel>) -> Seq<char>
    decreases s.len(),
{
    if s.len() == 0 {
        Seq::empty()
    } else {
        inlines_text(s.drop_last()) + inline_text(s.last())
    }
}

/// The plain text of one block: literal content only, no markup.
pub open spec fn block_text(b: BlockModel) -> Seq<char> {
    match b {
        BlockModel::Heading(_, is) => inlines_text(is),
        BlockModel::Paragraph(is) => inlines_text(is),
        BlockModel::Code(_, lit) => lit,
    }
}

pub open spec fn blocks_text(s: Seq<BlockModel>) -> Seq<char>
    decreases s.len(),
{
    if s.len() == 0 {
        Seq::empty()
    } else {
        blocks_text(s.drop_last()) + block_text(s.last())
    }
}

/// The links one inline node contributes.
pub open spec fn inline_links(i: InlineModel) -> Seq<LinkModel> {
    match i {
        InlineModel::Link(l) => seq![l],
        _ => Seq::empty(),
    }
}

pub open spec fn inlines_links(s: Seq<InlineModel>) -> Seq<LinkModel>
    decreases s.len(),
{
    if s.len() == 0 {
        Seq::empty()
    } else {
        inlines_links(s.drop_last()) + inline_links(s.last())
    }
}

pub open spec fn block_links(b: BlockModel) -> Seq<LinkModel> {
    match b {
        BlockModel::Heading(_, is) => inlines_links(is),
        BlockModel::Paragraph(is) => inlines_links(is),
        BlockModel::Code(_, _) => Seq::empty(),
    }
}

pub open spec fn blocks_links(s: Seq<BlockModel>) -> Seq<LinkModel>
    decreases s.len(),
{
    if s.len() == 0 {
        Seq::empty()
    } else {
        blocks_links(s.drop_last()) + block_links(s.last())
    }
}

/// A link target as it is written out: spaces become `%20`.
pub open spec fn escape_url(u: Seq<char>) -> Seq<char>
    decreases u.len(),
{
    if u.len() == 0 {
        Seq::empty()
    } else {
        escape_url(u.drop_last()) + (if u.last() == ' ' {
            seq!['%', '2', '0']
        } else {
            seq![u.last()]
        })
    }
}

/// The markdown form of one inline node.
pub open spec fn inline_md(i: InlineModel) -> Seq<char> {
    match i {
        InlineModel::Text(s) => s,
        InlineModel::Code(s) => seq!['`'] + s + seq!['`'],
        InlineModel::Link(l) => seq!['['] + l.text + seq![']', '('] + escape_url(l.url) + seq![
            ')',
        ],
        InlineModel::SoftBreak => seq!['\n'],
    }
}

pub open spec fn inlines_md(s: Seq<InlineModel>) -> Seq<char>
    decreases s.len(),
{
    if s.len() == 0 {
        Seq::empty()
    } else {
        inlines_md(s.drop_last()) + inline_md(s.last())
    }
}

/// `n` hash marks.
pub open spec fn hashes(n: int) -> Seq<char> {
    if n >= 0 {
        Seq::new(n as nat, |i: int| '#')
    } else {
        Seq::empty()
    }
}

/// The markdown form of one block, ending with a line break.
pub open spec fn block_md(b: BlockModel) -> Seq<char> {
    match b {
        BlockModel::Heading(h, is) => hashes(h) + seq![' '] + inlines_md(is) + seq!['\n'],
        BlockModel::Paragraph(is) => inlines_md(is) + seq!['\n'],
        BlockModel::Code(info, lit) => seq!['`', '`', '`'] + (if info.len() > 0 {
            seq![' '] + info
        } else {
            Seq::empty()
        }) + seq!['\n'] + lit + seq!['`', '`', '`', '\n'],
    }
}

/// The markdown form of a document: its blocks with a blank line between
/// them.
pub open spec fn blocks_md(s: Seq<BlockModel>) -> Seq<char>
    decreases s.len(),
{
    if s.len() == 0 {
        Seq::empty()
    } else if s.len() == 1 {
        block_md(s[0])
    } else {
        blocks_md(s.drop_last()) + seq!['\n'] + block_md(s.last())
    }
}

/// The plain text of the inline nodes.
fn inlines_text_exec(is: &Vec<Inline>) -> (r: Vec<char>)
    ensures
        r@ == inlines_text(inlines_view(is@)),
{
    let ghost iv = inlines_view(is@);
    let mut r: Vec<char> = Vec::new();
    let mut p: usize = 0;
    proof {
        assert(r@ =~= inlines_text(iv.take(0)));
    }
    while p < is.len()
        invariant
            p <= is@.len(),
            iv == inlines_view(is@),
            r@ == inlines_text(iv.take(p as int)),
        decreases is@.len() - p,
    {
        proof {
            assert(iv[p as int] == inline_view(&is@[p as int]));
            assert(iv.take(p + 1 as int).drop_last() =~= iv.take(p as int));
            assert(iv.take(p + 1 as int).last() == iv[p as int]);
        }
        match &is[p] {
            Inline::Text(c) => {
                push_char_vec(&mut r, *c);
            },
            Inline::Code(v) => {
                let mut piece = copy_range(v, 0, v.len());
                proof {
                    assert(piece@ =~= v@);
                }
                r.append(&mut piece);
            },
            Inline::Link(l) => {
                let mut piece = copy_range(&l.text, 0, l.text.len());
                proof {
                    assert(piece@ =~= l.text@);
                }
                r.append(&mut piece);
            },
            Inline::SoftBreak => {
                proof {
                    assert(r@ =~= r@ + Seq::<char>::empty());
                }
            },
        }
        proof {
            assert(r@ =~= inlines_text(iv.take(p + 1 as int)));
        }
        p += 1;
    }
    proof {
        assert(iv.take(iv.len() as int) =~= iv);
    }
    r
}

/// The plain text of one block.
fn block_text_exec(b: &Block) -> (r: Vec<char>)
    ensures
        r@ == block_text(block_view(b)),
{
    match b {
        Block::Heading(_, is) => inlines_text_exec(is),
        Block::Paragraph(is) => inlines_text_exec(is),
        Block::Code(_, lit) => {
            let r = copy_range(lit, 0, lit.len());
            proof {
                assert(r@ =~= lit@);
            }
            r
        },
    }
}

/// The plain text of the blocks.
pub fn blocks_text_exec(blocks: &Vec<Block>) -> (r: Vec<char>)
    ensures
        r@ == blocks_text(blocks_view(blocks@)),
{
    let ghost bv = blocks_view(blocks@);
    let mut r: Vec<char> = Vec::new();
    let mut p: usize = 0;
    proof {
        assert(r@ =~= blocks_text(bv.take(0)));
    }
    while p < blocks.len()
        invariant
            p <= blocks@.len(),
            bv == blocks_view(blocks@),
            r@ == blocks_text(bv.take(p as int)),
        decreases blocks@.len() - p,
    {
        proof {
            assert(bv[p as int] == block_view(&blocks@[p as int]));
            assert(bv.take(p + 1 as int).drop_last() =~= bv.take(p as int));
            assert(bv.take(p + 1 as int).last() == bv[p as int]);
        }
        let mut piece = block_text_exec(&blocks[p]);
        r.append(&mut piece);
        proof {
            assert(r@ =~= blocks_text(bv.take(p + 1 as int)));
        }
        p += 1;
    }
    proof {
        assert(bv.take(bv.len() as int) =~= bv);
    }
    r
}

/// A copy of a link.
fn link_copy(l: &Link) -> (r: Link)
    ensures
        r.model() == l.model(),
{
    let text = copy_range(&l.text, 0, l.text.len());
    let url = copy_range(&l.url, 0, l.url.len());
    let title = copy_range(&l.title, 0, l.title.len());
    proof {
        assert(text@ =~= l.text@);
        assert(url@ =~= l.url@);
        assert(title@ =~= l.title@);
    }
    Link { text, url, title }
}

pub open spec fn links_view(s: Seq<Link>) -> Seq<LinkModel> {
    Seq::new(s.len(), |i: int| s[i].model())
}

/// The links of the inline nodes, in order.
fn inlines_links_exec(is: &Vec<Inline>) -> (r: Vec<Link>)
    ensures
        links_view(r@) == inlines_links(inlines_view(is@)),
{
    let ghost iv = inlines_view(is@);
    let mut r: Vec<Link> = Vec::new();
    let mut p: usize = 0;
    proof {
        assert(links_view(r@) =~= inlines_links(iv.take(0)));
    }
    while p < is.len()
        invariant
            p <= is@.len(),
            iv == inlines_view(is@),
            links_view(r@) == inlines_links(iv.take(p as int)),
        decreases is@.len() - p,
    {
        proof {
            assert(iv[p as int] == inline_view(&is@[p as int]));
            assert(iv.take(p + 1 as int).drop_last() =~= iv.take(p as int));
            assert(iv.take(p + 1 as int).last() == iv[p as int]);
        }
        let ghost before = links_view(r@);
        if let Inline::Link(l) = &is[p] {
            let c = link_copy(l);
            let ghost cm = c.model();
            r.push(c);
            proof {
                assert forall|j: int| 0 <= j < r@.len() implies links_view(r@)[j] == (before
                    + seq![cm])[j] by {
                    assert(links_view(r@)[j] == r@[j].model());
                }
                assert(links_view(r@) =~= before + seq![cm]);
            }
        }
        proof {
            assert(links_view(r@) =~= inlines_links(iv.take(p + 1 as int)));
        }
        p += 1;
    }
    proof {
        assert(iv.take(iv.len() as int) =~= iv);
    }
    r
}

/// The links of the blocks, in order.
pub fn blocks_links_exec(blocks: &Vec<Block>) -> (r: Vec<Link>)
    ensures
        links_view(r@) == blocks_links(blocks_view(blocks@)),
{
    let ghost bv = blocks_view(blocks@);
    let mut r: Vec<Link> = Vec::new();
    let mut p: usize = 0;
    proof {
        assert(links_view(r@) =~= blocks_links(bv.take(0)));
    }
    while p < blocks.len()
        invariant
            p <= blocks@.len(),
            bv == blocks_view(blocks@),
            links_view(r@) == blocks_links(bv.take(p as int)),
        decreases blocks@.len() - p,
    {
        proof {
            assert(bv[p as int] == block_view(&blocks@[p as int]));
            assert(bv.take(p + 1 as int).drop_last() =~= bv.take(p as int));
            assert(bv.take(p + 1 as int).last() == bv[p as int]);
        }
        let ghost before = links_view(r@);
        let mut part: Vec<Link> = match &blocks[p] {
            Block::Heading(_, is) => inlines_links_exec(is),
            Block::Paragraph(is) => inlines_links_exec(is),
            Block::Code(_, _) => Vec::new(),
        };
        let ghost partseq = part@;
        let ghost partv = links_view(part@);
        let ghost rv = r@;
        proof {
            if blocks@[p as int] is Code {
                assert(partv =~= block_links(bv[p as int]));
            }
        }
        r.append(&mut part);
        proof {
            assert forall|j: int| 0 <= j < r@.len() implies links_view(r@)[j] == (before
                + partv)[j] by {
                assert(r@[j] == (rv + partseq)[j]);
                if j < rv.len() {
                    assert(links_view(rv)[j] == rv[j].model());
                } else {
                    assert(links_view(partseq)[j - rv.len()] == partseq[j - rv.len()].model());
                }
            }
            assert(links_view(r@) =~= before + partv);
            assert(links_view(r@) =~= blocks_links(bv.take(p + 1 as int)));
        }
        p += 1;
    }
    proof {
        assert(bv.take(bv.len() as int) =~= bv);
    }
    r
}

/// The written form of a link target.
fn escape_url_exec(u: &Vec<char>) -> (r: Vec<char>)
    ensures
        r@ == escape_url(u@),
{
    let mut r: Vec<char> = Vec::new();
    let mut p: usize = 0;
    proof {
        assert(r@ =~= escape_url(u@.take(0)));
    }
    while p < u.len()
        invariant
            p <= u@.len(),
            r@ == escape_url(u@.take(p as int)),
        decreases u@.len() - p,
    {
        proof {
            assert(u@.take(p + 1 as int).drop_last() =~= u@.take(p as int));
            assert(u@.take(p + 1 as int).last() == u@[p as int]);
        }
        let c = u[p];
        if c == ' ' {
            push_char_vec(&mut r, '%');
            push_char_vec(&mut r, '2');
            push_char_vec(&mut r, '0');
        } else {
            push_char_vec(&mut r, c);
        }
        proof {
            assert(r@ =~= escape_url(u@.take(p + 1 as int)));
        }
        p += 1;
    }
    proof {
        assert(u@.take(u@.len() as int) =~= u@);
    }
    r
}

/// The markdown form of the inline nodes.
fn inlines_md_exec(is: &Vec<Inline>) -> (r: Vec<char>)
    ensures
        r@ == inlines_md(inlines_view(is@)),
{
    let ghost iv = inlines_view(is@);
    let mut r: Vec<char> = Vec::new();
    let mut p: usize = 0;
    proof {
        assert(r@ =~= inlines_md(iv.take(0)));
    }
    while p < is.len()
        invariant
            p <= is@.len(),
            iv == inlines_view(is@),
            r@ == inlines_md(iv.take(p as int)),
        decreases is@.len() - p,
    {
        proof {
            assert(iv[p as int] == inline_view(&is@[p as int]));
            assert(iv.take(p + 1 as int).drop_last() =~= iv.take(p as int));
            assert(iv.take(p + 1 as int).last() == iv[p as int]);
        }
        match &is[p] {
            Inline::Text(c) => {
                push_char_vec(&mut r, *c);
            },
            Inline::Code(v) => {
                push_char_vec(&mut r, '`');
                let mut piece = copy_range(v, 0, v.len());
                proof {
                    assert(piece@ =~= v@);
                }
                r.append(&mut piece);
                push_char_vec(&mut r, '`');
            },
            Inline::Link(l) => {
                push_char_vec(&mut r, '[');
                let mut text = copy_range(&l.text, 0, l.text.len());
                proof {
                    assert(text@ =~= l.text@);
                }
                r.append(&mut text);
                push_char_vec(&mut r, ']');
                push_char_vec(&mut r, '(');
                let mut url = escape_url_exec(&l.url);
                r.append(&mut url);
                push_char_vec(&mut r, ')');
            },
            Inline::SoftBreak => {
                push_char_vec(&mut r, '\n');
            },
        }
        proof {
            assert(r@ =~= inlines_md(iv.take(p + 1 as int)));
        }
        p += 1;
    }
    proof {
        assert(iv.take(iv.len() as int) =~= iv);
    }
    r
}

/// The markdown form of one block.
fn block_md_exec(b: &Block) -> (r: Vec<char>)
    ensures
        r@ == block_md(block_view(b)),
{
    match b {
        Block::Heading(h, is) => {
            let mut r: Vec<char> = Vec::new();
            let mut p: usize = 0;
            while p < *h as usize
                invariant
                    p <= *h as usize,
                    r@ =~= hashes(p as int),
                decreases *h as usize - p,
            {
                push_char_vec(&mut r, '#');
                proof {
                    assert(r@ =~= hashes(p + 1 as int));
                }
                p += 1;
            }
            push_char_vec(&mut r, ' ');
            let mut inls = inlines_md_exec(is);
            r.append(&mut inls);
            push_char_vec(&mut r, '\n');
            proof {
                assert(r@ =~= block_md(block_view(b)));
            }
            r
        },
        Block::Paragraph(is) => {
            let mut r = inlines_md_exec(is);
            push_char_vec(&mut r, '\n');
            proof {
                assert(r@ =~= block_md(block_view(b)));
            }
            r
        },
        Block::Code(info, lit) => {
            let mut r: Vec<char> = Vec::new();
            push_char_vec(&mut r, '`');
            push_char_vec(&mut r, '`');
            push_char_vec(&mut r, '`');
            if info.len() > 0 {
                push_char_vec(&mut r, ' ');
                let mut i2 = copy_range(info, 0, info.len());
                proof {
                    assert(i2@ =~= info@);
                }
                r.append(&mut i2);
            }
            push_char_vec(&mut r, '\n');
            let mut l2 = copy_range(lit, 0, lit.len());
            proof {
                assert(l2@ =~= lit@);
            }
            r.append(&mut l2);
            push_char_vec(&mut r, '`');
            push_char_vec(&mut r, '`');
            push_char_vec(&mut r, '`');
            push_char_vec(&mut r, '\n');
            proof {
                assert(r@ =~= block_md(block_view(b)));
            }
            r
        },
    }
}

/// The markdown form of the blocks, a blank line between them.
pub fn blocks_md_exec(blocks: &Vec<Block>) -> (r: Vec<char>)
    ensures
        r@ == blocks_md(blocks_view(blocks@)),
{
    let ghost bv = blocks_view(blocks@);
    let mut r: Vec<char> = Vec::new();
    let mut p: usize = 0;
    proof {
        assert(r@ =~= blocks_md(bv.take(0)));
    }
    while p < blocks.len()
        invariant
            p <= blocks@.len(),
            bv == blocks_view(blocks@),
            r@ == blocks_md(bv.take(p as int)),
        decreases blocks@.len() - p,
    {
        proof {
            assert(bv[p as int] == block_view(&blocks@[p as int]));
            assert(bv.take(p + 1 as int).drop_last() =~= bv.take(p as int));
            assert(bv.take(p + 1 as int).last() == bv[p as int]);
        }
        if p > 0 {
            push_char_vec(&mut r, '\n');
        }
        let mut piece = block_md_exec(&blocks[p]);
        r.append(&mut piece);
        proof {
            if p == 0 {
                assert(bv.take(1).len() == 1);
                assert(bv.take(1)[0] == bv[0]);
                assert(r@ =~= blocks_md(bv.take(1)));
            } else {
                assert(r@ =~= blocks_md(bv.take(p + 1 as int)));
            }
        }
        p += 1;
    }
    proof {
        assert(bv.take(bv.len() as int) =~= bv);
    }
    r
}

} // verus!

verus! {

// ---------------------------------------------------------------------------
// Link metadata and the document itself
// ---------------------------------------------------------------------------

/// The mathematical value of a metadata pair.
pub struct MetaModel {
    pub key: Seq<char>,
    pub value: Seq<char>,
}

/// A `key=value` pair encoded in a link target.
pub struct Meta {
    pub key: String,
    pub value: String,
}

pub open spec fn meta_view(r: &Option<Meta>) -> Option<MetaModel> {
    match r {
        Some(m) => Some(MetaModel { key: m.key@, value: m.value@ }),
        None => None,
    }
}

/// The split of `v` at its first `=`: absent when there is none.
pub open spec fn split_eq(v: Seq<char>) -> Option<MetaModel> {
    let k = find_char_at(v, 0, '=');
    if k == v.len() {
        None
    } else {
        Some(MetaModel { key: v.take(k), value: v.skip(k + 1) })
    }
}

/// The metadata a link target encodes: the `path` query parameter when the
/// target parses as a URL carrying one, else nothing for a parsed URL
/// without it, else the target itself; the chosen text split at its first
/// `=`.
pub open spec fn link_meta(url: Seq<char>) -> Option<MetaModel> {
    match crate::uris::path_param_of(crate::uris::url_query_kv(url)) {
        None => split_eq(url),
        Some(None) => None,
        Some(Some(v)) => split_eq(v),
    }
}

/// The split of `v` at its first `=`.
pub fn split_eq_exec(v: &Vec<char>) -> (r: Option<Meta>)
    ensures
        meta_view(&r) == split_eq(v@),
{
    broadcast use lemma_find_char_at;

    let n = v.len();
    let k = find_char(v, 0, '=');
    if k == n {
        return None;
    }
    let key = copy_range(v, 0, k);
    let value = copy_range(v, k + 1, n);
    proof {
        assert(key@ =~= v@.take(k as int));
        assert(value@ =~= v@.skip(k + 1));
    }
    Some(Meta { key: chars_to_string(&key), value: chars_to_string(&value) })
}

impl Link {
    /// The `key=value` metadata this link's target encodes, read through
    /// the URL parser.
    pub fn meta(&self) -> (r: Option<Meta>)
        ensures
            meta_view(&r) == link_meta(self.model().url),
    {
        let url_s = chars_to_string(&self.url);
        let kv = crate::uris::url_query_lookup(url_s.as_str());
        let p = crate::uris::path_param(&kv);
        match p {
            None => split_eq_exec(&self.url),
            Some(None) => None,
            Some(Some(v)) => {
                let chars = str_to_chars(v.as_str());
                split_eq_exec(&chars)
            },
        }
    }
}

/// The type encoded by the first link whose metadata key is `type`.
pub open spec fn type_from_links(ls: Seq<LinkModel>, from: int) -> Option<Seq<char>>
    decreases ls.len() - from,
{
    if from < 0 || from >= ls.len() {
        None
    } else {
        match link_meta(ls[from].url) {
            Some(m) => if m.key == key_type() {
                Some(m.value)
            } else {
                type_from_links(ls, from + 1)
            },
            None => type_from_links(ls, from + 1),
        }
    }
}

/// Title resolution: the header's title, else the source's, never the body.
pub open spec fn resolved_title(fm: Option<FmModel>, source: Option<Seq<char>>) -> Option<
    Seq<char>,
> {
    match fm {
        Some(m) => if m.title is Some {
            m.title
        } else {
            source
        },
        None => source,
    }
}

/// Type resolution: the header's type, else the first `type` link, else
/// absent.
pub open spec fn resolved_type(fm: Option<FmModel>, ls: Seq<LinkModel>) -> Option<Seq<char>> {
    match fm {
        Some(m) => if m.doc_type is Some {
            m.doc_type
        } else {
            type_from_links(ls, 0)
        },
        None => type_from_links(ls, 0),
    }
}

/// The lines of a text: split on line breaks, kept as they stand.
pub open spec fn doc_lines(text: Seq<char>) -> Seq<Seq<char>> {
    split_keep(text, '\n')
}

/// Whether the text opens with a delimited front-matter block.
pub open spec fn doc_has_fm(text: Seq<char>) -> bool {
    let ls = doc_lines(text);
    ls.len() > 0 && is_fm_delim(ls[0]) && find_delim(ls, 1) < ls.len()
}

/// The lines of the front-matter block, delimiters excluded.
pub open spec fn doc_fm_lines(text: Seq<char>) -> Seq<Seq<char>> {
    doc_lines(text).subrange(1, find_delim(doc_lines(text), 1))
}

/// The first line of the body: right after the front-matter block, or the
/// top.
pub open spec fn body_start_of(text: Seq<char>) -> int {
    if doc_has_fm(text) {
        find_delim(doc_lines(text), 1) + 1
    } else {
        0
    }
}

/// Whether the front-matter block, if any, parses.
pub open spec fn doc_fm_ok(text: Seq<char>) -> bool {
    doc_has_fm(text) ==> fm_result(doc_fm_lines(text)) is Some
}

/// The header a text carries: absent without a front-matter block.
pub open spec fn doc_fm_of(text: Seq<char>) -> Option<FmModel> {
    if doc_has_fm(text) {
        fm_result(doc_fm_lines(text))
    } else {
        None
    }
}

/// The blocks of the body.
pub open spec fn doc_blocks_of(text: Seq<char>) -> Seq<BlockModel> {
    parse_blocks_at(doc_lines(text), body_start_of(text))
}

/// One normalized document: its source reference and timestamps, the
/// detached header, and the parsed body tree. Parsing happens once, when
/// the document is built.
pub struct Document {
    uri: String,
    source_title: Option<String>,
    created: Option<i64>,
    modified: Option<i64>,
    content: String,
    front_matter: Option<FrontMatter>,
    blocks: Vec<Block>,
}

pub open spec fn opt_string_view(o: &Option<String>) -> Option<Seq<char>> {
    match o {
        Some(s) => Some(s@),
        None => None,
    }
}

/// The first front-matter delimiter line at or after `from`, or the number
/// of lines.
fn find_delim_line(lines: &Vec<Vec<char>>, from: usize) -> (k: usize)
    requires
        from <= lines@.len(),
    ensures
        k == find_delim(lines.deep_view(), from as int),
{
    broadcast use lemma_find_delim;

    let ghost lv = lines.deep_view();
    let n = lines.len();
    let mut k: usize = from;
    let mut found = false;
    while k < n && !found
        invariant
            from <= k <= n == lv.len(),
            lv == lines.deep_view(),
            forall|j: int| from <= j < k ==> !is_fm_delim(#[trigger] lv[j]),
            found ==> k < n && is_fm_delim(lv[k as int]),
        decreases n - k + (if found {
            0int
        } else {
            1int
        }),
    {
        proof {
            assert(lines@[k as int]@ == lv[k as int]);
        }
        if fm_delim_line(&lines[k]) {
            found = true;
        } else {
            k += 1;
        }
    }
    proof {
        let r = find_delim(lv, from as int);
        if r < k {
            assert(!is_fm_delim(lv[r]));
        }
        if r > k {
            assert(k < lv.len());
            assert(!is_fm_delim(lv[k as int]));
        }
    }
    k
}

/// A copy of the lines `a..b`.
fn copy_lines(lines: &Vec<Vec<char>>, a: usize, b: usize) -> (r: Vec<Vec<char>>)
    requires
        a <= b <= lines@.len(),
    ensures
        r.deep_view() == lines.deep_view().subrange(a as int, b as int),
{
    let ghost lv = lines.deep_view();
    let mut r: Vec<Vec<char>> = Vec::new();
    let mut p: usize = a;
    while p < b
        invariant
            a <= p <= b <= lv.len(),
            lv == lines.deep_view(),
            r@.len() == p - a,
            forall|j: int| 0 <= j < p - a ==> #[trigger] r@[j]@ == lv[a + j],
        decreases b - p,
    {
        proof {
            assert(lines@[p as int]@ == lv[p as int]);
        }
        let piece = copy_range(&lines[p], 0, lines[p].len());
        proof {
            assert(piece@ =~= lv[p as int]);
        }
        r.push(piece);
        p += 1;
    }
    proof {
        assert forall|j: int| 0 <= j < r@.len() implies r.deep_view()[j] == lv.subrange(
            a as int,
            b as int,
        )[j] by {
            assert(r.deep_view()[j] == r@[j]@);
        }
        assert(r.deep_view() =~= lv.subrange(a as int, b as int));
    }
    r
}

impl Document {
    pub closed spec fn uri_model(&self) -> Seq<char> {
        self.uri@
    }

    pub closed spec fn source_title_model(&self) -> Option<Seq<char>> {
        opt_string_view(&self.source_title)
    }

    pub closed spec fn created_model(&self) -> Option<i64> {
        self.created
    }

    pub closed spec fn modified_model(&self) -> Option<i64> {
        self.modified
    }

    pub closed spec fn content_model(&self) -> Seq<char> {
        self.content@
    }

    pub closed spec fn fm_model(&self) -> Option<FmModel> {
        match &self.front_matter {
            Some(f) => Some(f.model()),
            None => None,
        }
    }

    pub closed spec fn blocks_model(&self) -> Seq<BlockModel> {
        blocks_view(self.blocks@)
    }

    /// Build a document from its source's parts: the whole pipeline runs
    /// here, once. Fails exactly when a front-matter block is present and
    /// malformed.
    pub fn from_text(
        uri: String,
        source_title: Option<String>,
        created: Option<i64>,
        modified: Option<i64>,
        content: &str,
    ) -> (r: Result<Document, FrontMatterError>)
        ensures
            match r {
                Ok(d) => {
                    &&& doc_fm_ok(content@)
                    &&& d.content_model() == content@
                    &&& d.uri_model() == uri@
                    &&& d.source_title_model() == opt_string_view(&source_title)
                    &&& d.created_model() == created
                    &&& d.modified_model() == modified
                    &&& d.fm_model() == doc_fm_of(content@)
                    &&& d.blocks_model() == doc_blocks_of(content@)
                },
                Err(_) => !doc_fm_ok(content@),
            },
    {
        broadcast use lemma_find_delim;

        let chars = str_to_chars(content);
        let n = chars.len();
        let lines = split_keep_range(&chars, 0, n, '\n');
        proof {
            assert(chars@.subrange(0, n as int) =~= content@);
        }
        let ghost lv = lines.deep_view();
        let mut front_matter: Option<FrontMatter> = None;
        let mut body_start: usize = 0;
        proof {
            assert(lines@[0]@ == lv[0]);
        }
        if fm_delim_line(&lines[0]) {
            let close = find_delim_line(&lines, 1);
            if close < lines.len() {
                let fml = copy_lines(&lines, 1, close);
                match FrontMatter::parse_lines(&fml) {
                    Ok(f) => {
                        front_matter = Some(f);
                        body_start = close + 1;
                    },
                    Err(e) => {
                        return Err(e);
                    },
                }
            }
        }
        let blocks = parse_blocks(&lines, body_start);
        Ok(
            Document {
                uri,
                source_title,
                created,
                modified,
                content: content.to_owned(),
                front_matter,
                blocks,
            },
        )
    }

    /// The stable unique reference of the document's source.
    pub fn uri(&self) -> (r: &String)
        ensures
            r@ == self.uri_model(),
    {
        &self.uri
    }

    /// The raw text the source handed in, before any normalization.
    pub fn content(&self) -> (r: &str)
        ensures
            r@ == self.content_model(),
    {
        self.content.as_str()
    }

    /// The creation time the source reports.
    pub fn created(&self) -> (r: Option<i64>)
        ensures
            r == self.created_model(),
    {
        self.created
    }

    /// The modification time the source reports.
    pub fn modified(&self) -> (r: Option<i64>)
        ensures
            r == self.modified_model(),
    {
        self.modified
    }

    /// The detached header, when the document carries one.
    pub fn front_matter(&self) -> (r: Option<&FrontMatter>)
        ensures
            match r {
                Some(f) => self.fm_model() == Some(f.model()),
                None => self.fm_model() is None,
            },
    {
        match &self.front_matter {
            Some(f) => Some(f),
            None => None,
        }
    }

    /// The resolved title: the header's, else the source's, never inferred
    /// from the body.
    pub fn title(&self) -> (r: Option<&str>)
        ensures
            match r {
                Some(s) => resolved_title(self.fm_model(), self.source_title_model()) == Some(s@),
                None => resolved_title(self.fm_model(), self.source_title_model()) is None,
            },
    {
        let from_fm = match &self.front_matter {
            Some(f) => f.title(),
            None => None,
        };
        match from_fm {
            Some(t) => Some(t),
            None => match &self.source_title {
                Some(s) => Some(s.as_str()),
                None => None,
            },
        }
    }

    /// The plain text of the body: literal content only, no markup.
    pub fn text(&self) -> (r: String)
        ensures
            r@ == blocks_text(self.blocks_model()),
    {
        let chars = blocks_text_exec(&self.blocks);
        chars_to_string(&chars)
    }

    /// The canonical markdown of the body: front matter stripped,
    /// wiki-links rewritten.
    pub fn markdown(&self) -> (r: String)
        ensures
            r@ == blocks_md(self.blocks_model()),
    {
        let chars = blocks_md_exec(&self.blocks);
        chars_to_string(&chars)
    }

    /// The outbound links of the body, in order.
    pub fn links(&self) -> (r: Vec<Link>)
        ensures
            links_view(r@) == blocks_links(self.blocks_model()),
    {
        blocks_links_exec(&self.blocks)
    }

    /// The resolved type: the header's, else the first link whose metadata
    /// key is `type`, else absent.
    pub fn doc_type(&self) -> (r: Option<String>)
        ensures
            opt_string_view(&r) == resolved_type(
                self.fm_model(),
                blocks_links(self.blocks_model()),
            ),
    {
        let from_fm = match &self.front_matter {
            Some(f) => match f.doc_type() {
                Some(t) => Some(t.to_owned()),
                None => None,
            },
            None => None,
        };
        if let Some(t) = from_fm {
            return Some(t);
        }
        let ls = self.links();
        let ghost lsv = links_view(ls@);
        let mut type_key = String::new();
        crate::strutil::push_char(&mut type_key, 't');
        crate::strutil::push_char(&mut type_key, 'y');
        crate::strutil::push_char(&mut type_key, 'p');
        crate::strutil::push_char(&mut type_key, 'e');
        proof {
            assert(type_key@ =~= key_type());
        }
        let mut i: usize = 0;
        while i < ls.len()
            invariant
                i <= ls@.len(),
                lsv == links_view(ls@),
                lsv == blocks_links(self.blocks_model()),
                type_key@ == key_type(),
                resolved_type(self.fm_model(), lsv) == type_from_links(lsv, i as int),
            decreases ls@.len() - i,
        {
            proof {
                assert(lsv[i as int] == ls@[i as int].model());
            }
            let m = ls[i].meta();
            match m {
                Some(m) => {
                    if m.key == type_key {
                        return Some(m.value);
                    }
                },
                None => {},
            }
            proof {
                assert(type_from_links(lsv, i as int) == type_from_links(lsv, i + 1 as int));
            }
            i += 1;
        }
        None
    }
}

} // verus!
