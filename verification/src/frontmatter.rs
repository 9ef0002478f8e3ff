//! The structured header block at the start of a document: a sequence of
//! `key: value` lines carrying `title`, `type` and `tags`. Tags may be
//! written as one delimited string (commas and spaces as separators), as an
//! inline `[a, b]` list, or as indented `- a` items; all three normalize to
//! the same ordered list of non-empty tags, and a tags field with no items
//! normalizes to absent.

use vstd::prelude::*;

use crate::scan::{
    all_blank, find_in_range, first_index_clipped, is_blank_char, range_all_blank, split_list,
    split_list_range, split_keep, split_keep_range, trim_range, trim_spec,
};
use crate::strutil::{chars_to_string, str_to_chars};

verus! {

/// The mathematical value of a parsed header block.
pub ghost struct FmModel {
    pub title: Option<Seq<char>>,
    pub doc_type: Option<Seq<char>>,
    pub tags: Option<Seq<Seq<char>>>,
}

/// The parsing state after some prefix of the header lines.
pub ghost struct FmState {
    pub title: Option<Seq<char>>,
    pub doc_type: Option<Seq<char>>,
    pub tags: Seq<Seq<char>>,
    pub in_tags: bool,
}

pub open spec fn fm_init() -> FmState {
    FmState { title: None, doc_type: None, tags: Seq::empty(), in_tags: false }
}

pub open spec fn key_title() -> Seq<char> {
    seq!['t', 'i', 't', 'l', 'e']
}

pub open spec fn key_type() -> Seq<char> {
    seq!['t', 'y', 'p', 'e']
}

pub open spec fn key_tags() -> Seq<char> {
    seq!['t', 'a', 'g', 's']
}

/// `s` with every comma replaced by a space.
pub open spec fn replace_commas(s: Seq<char>) -> Seq<char> {
    Seq::new(s.len(), |i: int| if s[i] == ',' { ' ' } else { s[i] })
}

/// The tag list denoted by the value written after `tags:`.
pub open spec fn tags_of_value(value: Seq<char>) -> Seq<Seq<char>> {
    if value.len() >= 2 && value[0] == '[' && value.last() == ']' {
        split_list(value.subrange(1, value.len() - 1), ',')
    } else {
        split_list(replace_commas(value), ' ')
    }
}

/// One header line applied to the parsing state; `None` is a malformed line.
pub open spec fn fm_line_step(st: FmState, line: Seq<char>) -> Option<FmState> {
    if all_blank(line) {
        Some(st)
    } else if is_blank_char(line[0]) {
        // an indented line: a list item belonging to the key above it
        let t = trim_spec(line);
        if t.len() >= 1 && t[0] == '-' {
            let item = trim_spec(t.skip(1));
            if st.in_tags && item.len() > 0 {
                Some(FmState { tags: st.tags.push(item), ..st })
            } else {
                Some(st)
            }
        } else {
            None
        }
    } else {
        let k = first_index_clipped(line, ':');
        if k == line.len() {
            None
        } else {
            let key = line.take(k);
            let value = trim_spec(line.skip(k + 1));
            if key == key_title() {
                Some(
                    FmState {
                        title: if value.len() == 0 {
                            None
                        } else {
                            Some(value)
                        },
                        in_tags: false,
                        ..st
                    },
                )
            } else if key == key_type() {
                Some(
                    FmState {
                        doc_type: if value.len() == 0 {
                            None
                        } else {
                            Some(value)
                        },
                        in_tags: false,
                        ..st
                    },
                )
            } else if key == key_tags() {
                if value.len() == 0 {
                    Some(FmState { tags: Seq::empty(), in_tags: true, ..st })
                } else {
                    Some(FmState { tags: tags_of_value(value), in_tags: false, ..st })
                }
            } else {
                Some(FmState { in_tags: false, ..st })
            }
        }
    }
}

/// The state after the first `n` header lines.
pub open spec fn fm_state(lines: Seq<Seq<char>>, n: int) -> Option<FmState>
    decreases n,
{
    if n <= 0 {
        Some(fm_init())
    } else {
        match fm_state(lines, n - 1) {
            None => None,
            Some(st) => fm_line_step(st, lines[n - 1]),
        }
    }
}

/// What a header block parses to; `None` when some line is malformed.
/// A tags field with no items is absent, never an empty list.
pub open spec fn fm_result(lines: Seq<Seq<char>>) -> Option<FmModel> {
    match fm_state(lines, lines.len() as int) {
        None => None,
        Some(st) => Some(
            FmModel {
                title: st.title,
                doc_type: st.doc_type,
                tags: if st.tags.len() == 0 {
                    None
                } else {
                    Some(st.tags)
                },
            },
        ),
    }
}

/// A failed parse stays failed over any further lines.
pub proof fn lemma_fm_state_none(lines: Seq<Seq<char>>, m: int, n: int)
    requires
        0 <= m <= n,
        fm_state(lines, m) is None,
    ensures
        fm_state(lines, n) is None,
    decreases n - m,
{
    if m < n {
        lemma_fm_state_none(lines, m, n - 1);
    }
}

/// The header block of a document: optional title, optional type, optional
/// list of tags.
pub struct FrontMatter {
    title: Option<String>,
    doc_type: Option<String>,
    tags: Option<Vec<String>>,
}

/// A malformed header line.
#[derive(Debug)]
pub struct FrontMatterError {
}

pub open spec fn opt_string_view(o: &Option<String>) -> Option<Seq<char>> {
    match o {
        Some(s) => Some(s@),
        None => None,
    }
}

impl FrontMatter {
    /// The mathematical value this header holds.
    pub closed spec fn model(&self) -> FmModel {
        FmModel {
            title: opt_string_view(&self.title),
            doc_type: opt_string_view(&self.doc_type),
            tags: match &self.tags {
                Some(v) => Some(v.deep_view()),
                None => None,
            },
        }
    }

    /// The title declared by the header, when there is one.
    pub fn title(&self) -> (r: Option<&str>)
        ensures
            match r {
                Some(s) => self.model().title == Some(s@),
                None => self.model().title is None,
            },
    {
        match &self.title {
            Some(s) => Some(s.as_str()),
            None => None,
        }
    }

    /// The document type declared by the header, when there is one.
    pub fn doc_type(&self) -> (r: Option<&str>)
        ensures
            match r {
                Some(s) => self.model().doc_type == Some(s@),
                None => self.model().doc_type is None,
            },
    {
        match &self.doc_type {
            Some(s) => Some(s.as_str()),
            None => None,
        }
    }

    /// The tags declared by the header; absent rather than empty.
    pub fn tags(&self) -> (r: Option<&Vec<String>>)
        ensures
            match r {
                Some(v) => self.model().tags == Some(v.deep_view()),
                None => self.model().tags is None,
            },
    {
        match &self.tags {
            Some(v) => Some(v),
            None => None,
        }
    }

    /// Parse a header block given as one text.
    pub fn parse(s: &str) -> (r: Result<FrontMatter, FrontMatterError>)
        ensures
            match r {
                Ok(fm) => fm_result(split_keep(s@, '\n')) == Some(fm.model()) && fm.wf(),
                Err(_) => fm_result(split_keep(s@, '\n')) is None,
            },
    {
        let chars = str_to_chars(s);
        let n = chars.len();
        let lines = split_keep_range(&chars, 0, n, '\n');
        proof {
            assert(chars@.subrange(0, n as int) =~= s@);
        }
        Self::parse_lines(&lines)
    }

    /// The tags list, when present, is never empty.
    pub open spec fn wf(&self) -> bool {
        match self.model().tags {
            Some(ts) => ts.len() > 0,
            None => true,
        }
    }

    /// Parse a header block given as its lines.
    pub fn parse_lines(lines: &Vec<Vec<char>>) -> (r: Result<FrontMatter, FrontMatterError>)
        ensures
            match r {
                Ok(fm) => fm_result(lines.deep_view()) == Some(fm.model()) && fm.wf(),
                Err(_) => fm_result(lines.deep_view()) is None,
            },
    {
        let ghost linesv = lines.deep_view();
        let mut title: Option<Vec<char>> = None;
        let mut doc_type: Option<Vec<char>> = None;
        let mut tags: Vec<Vec<char>> = Vec::new();
        let mut in_tags = false;
        let mut i: usize = 0;
        proof {
            assert(tags.deep_view() =~~= Seq::<Seq<char>>::empty());
        }
        while i < lines.len()
            invariant
                i <= lines@.len(),
                linesv == lines.deep_view(),
                fm_state(linesv, i as int) == Some(
                    FmState {
                        title: opt_chars_view(&title),
                        doc_type: opt_chars_view(&doc_type),
                        tags: tags.deep_view(),
                        in_tags: in_tags,
                    },
                ),
            decreases lines@.len() - i,
        {
            let ghost st = FmState {
                title: opt_chars_view(&title),
                doc_type: opt_chars_view(&doc_type),
                tags: tags.deep_view(),
                in_tags: in_tags,
            };
            let line = &lines[i];
            proof {
                assert(line@ == linesv[i as int]);
            }
            let n = line.len();
            if range_all_blank(line, 0, n) {
                proof {
                    assert(line@.subrange(0, n as int) =~= line@);
                }
            } else {
                proof {
                    assert(line@.subrange(0, n as int) =~= line@);
                    assert(!all_blank(line@));
                    assert(n > 0);
                }
                let c0 = line[0];
                if c0 == ' ' || c0 == '\t' {
                    let t = trim_range(line, 0, n);
                    proof {
                        assert(line@.subrange(0, n as int) =~= line@);
                    }
                    if t.len() >= 1 && t[0] == '-' {
                        let item = trim_range(&t, 1, t.len());
                        proof {
                            assert(t@.subrange(1, t@.len() as int) =~= t@.skip(1));
                        }
                        if in_tags && item.len() > 0 {
                            let ghost tagsv = tags.deep_view();
                            let ghost itemv = item@;
                            tags.push(item);
                            proof {
                                assert forall|j: int|
                                    0 <= j < tags@.len() implies tags.deep_view()[j] == tagsv.push(
                                    itemv,
                                )[j] by {
                                    assert(tags.deep_view()[j] == tags@[j]@);
                                }
                                assert(tags.deep_view() =~= tagsv.push(itemv));
                            }
                        }
                    } else {
                        proof {
                            assert(fm_line_step(st, linesv[i as int]) is None);
                            lemma_fm_state_none(linesv, i + 1, linesv.len() as int);
                        }
                        return Err(FrontMatterError {  });
                    }
                } else {
                    let k = find_in_range(line, 0, n, ':');
                    proof {
                        assert(line@.subrange(0, n as int) =~= line@);
                    }
                    if k == n {
                        proof {
                            assert(fm_line_step(st, linesv[i as int]) is None);
                            lemma_fm_state_none(linesv, i + 1, linesv.len() as int);
                        }
                        return Err(FrontMatterError {  });
                    }
                    let value = trim_range(line, k + 1, n);
                    proof {
                        assert(line@.subrange(k + 1 as int, n as int) =~= line@.skip(k + 1));
                    }
                    if key_is(line, k, 't', 'i', 't', 'l', 'e') {
                        title = if value.len() == 0 {
                            None
                        } else {
                            Some(value)
                        };
                        in_tags = false;
                    } else if key_is_4(line, k, 't', 'y', 'p', 'e') {
                        doc_type = if value.len() == 0 {
                            None
                        } else {
                            Some(value)
                        };
                        in_tags = false;
                    } else if key_is_4(line, k, 't', 'a', 'g', 's') {
                        if value.len() == 0 {
                            tags = Vec::new();
                            in_tags = true;
                            proof {
                                assert(tags.deep_view() =~~= Seq::<Seq<char>>::empty());
                            }
                        } else {
                            tags = tags_from_value(&value);
                            in_tags = false;
                        }
                    } else {
                        in_tags = false;
                    }
                }
            }
            i += 1;
        }
        let fm = FrontMatter {
            title: match title {
                Some(v) => Some(chars_to_string(&v)),
                None => None,
            },
            doc_type: match doc_type {
                Some(v) => Some(chars_to_string(&v)),
                None => None,
            },
            tags: if tags.len() == 0 {
                None
            } else {
                Some(words_to_strings(&tags))
            },
        };
        Ok(fm)
    }
}

pub open spec fn opt_chars_view(o: &Option<Vec<char>>) -> Option<Seq<char>> {
    match o {
        Some(v) => Some(v@),
        None => None,
    }
}

/// Whether `line[..k]` is the five-character key.
fn key_is(line: &Vec<char>, k: usize, c0: char, c1: char, c2: char, c3: char, c4: char) -> (r:
    bool)
    requires
        k <= line@.len(),
    ensures
        r == (line@.take(k as int) == seq![c0, c1, c2, c3, c4]),
{
    if k == 5 && line[0] == c0 && line[1] == c1 && line[2] == c2 && line[3] == c3 && line[4]
        == c4 {
        proof {
            assert(line@.take(k as int) =~= seq![c0, c1, c2, c3, c4]);
        }
        true
    } else {
        proof {
            if line@.take(k as int) == seq![c0, c1, c2, c3, c4] {
                assert(line@.take(k as int).len() == 5);
                assert(line@[0] == c0 && line@[1] == c1 && line@[2] == c2 && line@[3] == c3
                    && line@[4] == c4) by {
                    assert(forall|j: int|
                        0 <= j < 5 ==> line@.take(k as int)[j] == seq![c0, c1, c2, c3, c4][j]);
                }
            }
        }
        false
    }
}

/// Whether `line[..k]` is the four-character key.
fn key_is_4(line: &Vec<char>, k: usize, c0: char, c1: char, c2: char, c3: char) -> (r: bool)
    requires
        k <= line@.len(),
    ensures
        r == (line@.take(k as int) == seq![c0, c1, c2, c3]),
{
    if k == 4 && line[0] == c0 && line[1] == c1 && line[2] == c2 && line[3] == c3 {
        proof {
            assert(line@.take(k as int) =~= seq![c0, c1, c2, c3]);
        }
        true
    } else {
        proof {
            if line@.take(k as int) == seq![c0, c1, c2, c3] {
                assert(line@.take(k as int).len() == 4);
                assert(line@[0] == c0 && line@[1] == c1 && line@[2] == c2 && line@[3] == c3) by {
                    assert(forall|j: int|
                        0 <= j < 4 ==> line@.take(k as int)[j] == seq![c0, c1, c2, c3][j]);
                }
            }
        }
        false
    }
}

/// `v` with every comma replaced by a space.
fn replace_commas_exec(v: &Vec<char>) -> (r: Vec<char>)
    ensures
        r@ == replace_commas(v@),
{
    let mut r: Vec<char> = Vec::new();
    let mut p: usize = 0;
    while p < v.len()
        invariant
            p <= v@.len(),
            r@.len() == p,
            forall|j: int| 0 <= j < p ==> r@[j] == replace_commas(v@)[j],
        decreases v@.len() - p,
    {
        let c = v[p];
        if c == ',' {
            r.push(' ');
        } else {
            r.push(c);
        }
        p += 1;
    }
    proof {
        assert(r@ =~= replace_commas(v@));
    }
    r
}

/// The tag list denoted by the value written after `tags:`.
fn tags_from_value(value: &Vec<char>) -> (r: Vec<Vec<char>>)
    ensures
        r.deep_view() == tags_of_value(value@),
{
    let n = value.len();
    if n >= 2 && value[0] == '[' && value[n - 1] == ']' {
        proof {
            assert(value@.last() == value@[n - 1]);
        }
        split_list_range(value, 1, n - 1, ',')
    } else {
        let replaced = replace_commas_exec(value);
        let m = replaced.len();
        let r = split_list_range(&replaced, 0, m, ' ');
        proof {
            assert(replaced@.subrange(0, m as int) =~= replaced@);
        }
        r
    }
}

/// Copies of the given words as strings.
fn words_to_strings(v: &Vec<Vec<char>>) -> (r: Vec<String>)
    ensures
        r.deep_view() == v.deep_view(),
{
    let mut r: Vec<String> = Vec::new();
    let mut p: usize = 0;
    while p < v.len()
        invariant
            p <= v@.len(),
            r@.len() == p,
            forall|j: int| 0 <= j < p ==> #[trigger] r@[j]@ == v@[j]@,
        decreases v@.len() - p,
    {
        let s = chars_to_string(&v[p]);
        r.push(s);
        p += 1;
    }
    proof {
        assert forall|j: int| 0 <= j < r@.len() implies r.deep_view()[j] == v.deep_view()[j] by {
            assert(r.deep_view()[j] == r@[j]@);
            assert(v.deep_view()[j] == v@[j]@);
        }
        assert(r.deep_view() =~= v.deep_view());
    }
    r
}

} // verus!
