//! The persistent index: one record per document keyed by its unique URI,
//! a word-index row per record carrying the searchable projection, and the
//! incremental refresh that reconciles the store against a live document
//! enumeration without a full rebuild. Staleness is detected through
//! `last_seen_at`: every record a refresh cycle observes is stamped with
//! the cycle's timestamp, and whatever was not observed is pruned at the
//! end of the cycle.

use vstd::prelude::*;

use crate::frontmatter::FmModel;
use crate::markdown::{
    blocks_links, blocks_md, blocks_text, resolved_title, resolved_type, Document,
};
use crate::query::{query_matches, query_match};
use crate::strutil::{push_char, str_to_chars};

verus! {

// ---------------------------------------------------------------------------
// The mathematical store
// ---------------------------------------------------------------------------

/// One persisted document record.
#[verifier::ext_equal]
pub struct RecModel {
    pub id: u64,
    pub uri: Seq<char>,
    pub doc_type: Option<Seq<char>>,
    pub title: Seq<char>,
    pub markdown: Seq<char>,
    pub created: Option<i64>,
    pub modified: Option<i64>,
    pub last_seen_at: i64,
}

/// One searchable projection row, tied to its record by id.
#[verifier::ext_equal]
pub struct WordModel {
    pub document_id: u64,
    pub title: Seq<char>,
    pub text: Seq<char>,
}

/// The store: records and their projection rows, kept aligned, and the
/// next free surrogate id.
#[verifier::ext_equal]
pub struct StoreModel {
    pub recs: Seq<RecModel>,
    pub words: Seq<WordModel>,
    pub next_id: u64,
}

/// What the store reads off one document.
#[verifier::ext_equal]
pub struct DocModel {
    pub uri: Seq<char>,
    pub title: Option<Seq<char>>,
    pub doc_type: Option<Seq<char>>,
    pub markdown: Seq<char>,
    pub text: Seq<char>,
    pub tags: Option<Seq<Seq<char>>>,
    pub created: Option<i64>,
    pub modified: Option<i64>,
}

/// Well-formedness: records and projection rows align one to one by id,
/// ids are unique and below `next_id`, and URIs are unique.
pub open spec fn store_wf(s: StoreModel) -> bool {
    &&& s.recs.len() == s.words.len()
    &&& forall|i: int|
        0 <= i < s.recs.len() ==> (#[trigger] s.words[i]).document_id == s.recs[i].id
    &&& forall|i: int| 0 <= i < s.recs.len() ==> (#[trigger] s.recs[i]).id < s.next_id
    &&& forall|i: int, j: int|
        0 <= i < j < s.recs.len() ==> (#[trigger] s.recs[i]).id != (#[trigger] s.recs[j]).id
    &&& forall|i: int, j: int|
        0 <= i < j < s.recs.len() ==> (#[trigger] s.recs[i]).uri != (#[trigger] s.recs[j]).uri
}

/// The title as stored: an absent title stands as the empty string.
pub open spec fn title_or_empty(t: Option<Seq<char>>) -> Seq<char> {
    match t {
        Some(s) => s,
        None => Seq::empty(),
    }
}

/// Tags rendered as hash-qualified searchable tokens: `a b` becomes
/// `#a #b`.
pub open spec fn tags_tokens(ts: Seq<Seq<char>>) -> Seq<char>
    decreases ts.len(),
{
    if ts.len() == 0 {
        Seq::empty()
    } else if ts.len() == 1 {
        seq!['#'] + ts[0]
    } else {
        tags_tokens(ts.drop_last()) + seq![' ', '#'] + ts.last()
    }
}

pub open spec fn tags_rendered(tags: Option<Seq<Seq<char>>>) -> Seq<char> {
    match tags {
        Some(ts) => tags_tokens(ts),
        None => Seq::empty(),
    }
}

/// The searchable text of a document: title, body text, and the tag
/// tokens, space-separated.
pub open spec fn word_text_of(d: DocModel) -> Seq<char> {
    title_or_empty(d.title) + seq![' '] + d.text + seq![' '] + tags_rendered(d.tags)
}

/// The record a refresh writes for a document.
pub open spec fn written_rec(d: DocModel, id: u64, ts: i64) -> RecModel {
    RecModel {
        id,
        uri: d.uri,
        doc_type: d.doc_type,
        title: title_or_empty(d.title),
        markdown: d.markdown,
        created: d.created,
        modified: d.modified,
        last_seen_at: ts,
    }
}

/// The projection row a refresh writes for a document.
pub open spec fn written_word(d: DocModel, id: u64) -> WordModel {
    WordModel { document_id: id, title: title_or_empty(d.title), text: word_text_of(d) }
}

/// The record stamped as seen in this cycle, otherwise unchanged.
pub open spec fn touched(r: RecModel, ts: i64) -> RecModel {
    RecModel { last_seen_at: ts, ..r }
}

/// The least index of a record with this URI, or the length.
pub open spec fn find_uri(recs: Seq<RecModel>, uri: Seq<char>, from: int) -> int
    decreases recs.len() - from,
{
    if from < 0 || from >= recs.len() {
        recs.len() as int
    } else if recs[from].uri == uri {
        from
    } else {
        find_uri(recs, uri, from + 1)
    }
}

pub broadcast proof fn lemma_find_uri(recs: Seq<RecModel>, uri: Seq<char>, from: int)
    ensures
        0 <= from <= recs.len() ==> {
            let r = #[trigger] find_uri(recs, uri, from);
            &&& from <= r <= recs.len()
            &&& r < recs.len() ==> recs[r].uri == uri
            &&& forall|j: int| from <= j < r ==> (#[trigger] recs[j]).uri != uri
        },
    decreases recs.len() - from,
{
    if 0 <= from < recs.len() && recs[from].uri != uri {
        lemma_find_uri(recs, uri, from + 1);
    }
}

pub open spec fn has_uri(recs: Seq<RecModel>, uri: Seq<char>) -> bool {
    exists|i: int| 0 <= i < recs.len() && (#[trigger] recs[i]).uri == uri
}

/// The cheap unchanged check: the document reports a modification time and
/// the record already holds one at least as new.
pub open spec fn fast_path(s: StoreModel, d: DocModel) -> bool {
    let i = find_uri(s.recs, d.uri, 0);
    &&& d.modified is Some
    &&& i < s.recs.len()
    &&& s.recs[i].modified is Some
    &&& s.recs[i].modified->0 >= d.modified->0
}

/// One document applied to the store: stamp only, update in place keeping
/// the surrogate id, or insert under a fresh id.
pub open spec fn step(s: StoreModel, d: DocModel, ts: i64) -> StoreModel {
    let i = find_uri(s.recs, d.uri, 0);
    if fast_path(s, d) {
        StoreModel { recs: s.recs.update(i, touched(s.recs[i], ts)), ..s }
    } else if i < s.recs.len() {
        StoreModel {
            recs: s.recs.update(i, written_rec(d, s.recs[i].id, ts)),
            words: s.words.update(i, written_word(d, s.recs[i].id)),
            next_id: s.next_id,
        }
    } else {
        StoreModel {
            recs: s.recs.push(written_rec(d, s.next_id, ts)),
            words: s.words.push(written_word(d, s.next_id)),
            next_id: (s.next_id + 1) as u64,
        }
    }
}

/// The documents applied in order.
pub open spec fn steps(s: StoreModel, docs: Seq<DocModel>, ts: i64) -> StoreModel
    decreases docs.len(),
{
    if docs.len() == 0 {
        s
    } else {
        step(steps(s, docs.drop_last(), ts), docs.last(), ts)
    }
}

/// The records not observed in this cycle removed.
pub open spec fn prune_recs(recs: Seq<RecModel>, ts: i64) -> Seq<RecModel>
    decreases recs.len(),
{
    if recs.len() == 0 {
        Seq::empty()
    } else {
        prune_recs(recs.drop_last(), ts) + (if recs.last().last_seen_at >= ts {
            seq![recs.last()]
        } else {
            Seq::empty()
        })
    }
}

/// The projection rows of removed records removed with them.
pub open spec fn prune_words(recs: Seq<RecModel>, words: Seq<WordModel>, ts: i64) -> Seq<
    WordModel,
>
    decreases recs.len(),
{
    if recs.len() == 0 || words.len() < recs.len() {
        Seq::empty()
    } else {
        prune_words(recs.drop_last(), words.drop_last(), ts) + (if recs.last().last_seen_at
            >= ts {
            seq![words.last()]
        } else {
            Seq::empty()
        })
    }
}

/// One whole refresh cycle: every document applied, then everything not
/// observed pruned.
pub open spec fn refresh_spec(s: StoreModel, docs: Seq<DocModel>, ts: i64) -> StoreModel {
    let t = steps(s, docs, ts);
    StoreModel {
        recs: prune_recs(t.recs, ts),
        words: prune_words(t.recs, t.words, ts),
        next_id: t.next_id,
    }
}

// ---------------------------------------------------------------------------
// Search over the model
// ---------------------------------------------------------------------------

/// One search result.
#[verifier::ext_equal]
pub struct EntryModel {
    pub title: Seq<char>,
    pub url: Seq<char>,
    pub doc_type: Option<Seq<char>>,
    pub markdown: Seq<char>,
}

pub open spec fn entry_of(r: RecModel) -> EntryModel {
    EntryModel { title: r.title, url: r.uri, doc_type: r.doc_type, markdown: r.markdown }
}

/// The records whose projection row matches the query in the chosen field,
/// in rank order; the store's rank is its record order.
pub open spec fn hits(
    recs: Seq<RecModel>,
    words: Seq<WordModel>,
    q: Seq<char>,
    in_title: bool,
) -> Seq<EntryModel>
    decreases recs.len(),
{
    if recs.len() == 0 || words.len() < recs.len() {
        Seq::empty()
    } else {
        hits(recs.drop_last(), words.drop_last(), q, in_title) + (if query_matches(
            q,
            if in_title {
                words.last().title
            } else {
                words.last().text
            },
        ) {
            seq![entry_of(recs.last())]
        } else {
            Seq::empty()
        })
    }
}

/// Text-field matches appended after the title-field matches, skipping
/// whatever is already present.
pub open spec fn merge(acc: Seq<EntryModel>, rest: Seq<EntryModel>) -> Seq<EntryModel>
    decreases rest.len(),
{
    if rest.len() == 0 {
        acc
    } else {
        merge(
            if acc.contains(rest.first()) {
                acc
            } else {
                acc.push(rest.first())
            },
            rest.drop_first(),
        )
    }
}

/// What a query returns: title matches first, then text matches not
/// already present.
pub open spec fn search_spec(s: StoreModel, q: Seq<char>) -> Seq<EntryModel> {
    merge(hits(s.recs, s.words, q, true), hits(s.recs, s.words, q, false))
}

} // verus!

verus! {

// ---------------------------------------------------------------------------
// The executable store
// ---------------------------------------------------------------------------

/// One persisted document row.
pub struct IndexRecord {
    pub id: u64,
    pub uri: String,
    pub doc_type: Option<String>,
    pub title: String,
    pub markdown: String,
    pub created: Option<i64>,
    pub modified: Option<i64>,
    pub last_seen_at: i64,
}

/// One searchable projection row.
pub struct WordIndexRecord {
    pub document_id: u64,
    pub title: String,
    pub text: String,
}

pub open spec fn opt_str_view(o: &Option<String>) -> Option<Seq<char>> {
    match o {
        Some(s) => Some(s@),
        None => None,
    }
}

pub open spec fn rec_view(r: &IndexRecord) -> RecModel {
    RecModel {
        id: r.id,
        uri: r.uri@,
        doc_type: opt_str_view(&r.doc_type),
        title: r.title@,
        markdown: r.markdown@,
        created: r.created,
        modified: r.modified,
        last_seen_at: r.last_seen_at,
    }
}

pub open spec fn word_view(w: &WordIndexRecord) -> WordModel {
    WordModel { document_id: w.document_id, title: w.title@, text: w.text@ }
}

pub open spec fn recs_view(s: Seq<IndexRecord>) -> Seq<RecModel> {
    Seq::new(s.len(), |i: int| rec_view(&s[i]))
}

pub open spec fn words_view(s: Seq<WordIndexRecord>) -> Seq<WordModel> {
    Seq::new(s.len(), |i: int| word_view(&s[i]))
}

/// The store of indexed documents and their searchable projection.
pub struct IndexStore {
    records: Vec<IndexRecord>,
    words: Vec<WordIndexRecord>,
    next_id: u64,
}

/// What the store reads off one document: its reference, resolved title
/// and type, normalized markdown, plain text, tags and timestamps.
pub open spec fn doc_model(d: &Document) -> DocModel {
    DocModel {
        uri: d.uri_model(),
        title: resolved_title(d.fm_model(), d.source_title_model()),
        doc_type: resolved_type(d.fm_model(), blocks_links(d.blocks_model())),
        markdown: blocks_md(d.blocks_model()),
        text: blocks_text(d.blocks_model()),
        tags: fm_tags(d.fm_model()),
        created: d.created_model(),
        modified: d.modified_model(),
    }
}

pub open spec fn fm_tags(fm: Option<FmModel>) -> Option<Seq<Seq<char>>> {
    match fm {
        Some(m) => m.tags,
        None => None,
    }
}

pub open spec fn docs_model(ds: Seq<Document>) -> Seq<DocModel> {
    Seq::new(ds.len(), |i: int| doc_model(&ds[i]))
}

/// The searchable text of one document, computed from its parts.
fn word_text_exec(title: &Option<String>, text: &String, tags: &Option<Vec<String>>) -> (r:
    String)
    ensures
        r@ == title_or_empty(opt_str_view(title)) + seq![' '] + text@ + seq![' ']
            + tags_rendered(
            match tags {
                Some(v) => Some(v.deep_view()),
                None => None,
            },
        ),
{
    let mut r = match title {
        Some(t) => t.clone(),
        None => String::new(),
    };
    push_char(&mut r, ' ');
    r.append(text.as_str());
    push_char(&mut r, ' ');
    match tags {
        Some(ts) => {
            let ghost tsv = ts.deep_view();
            let ghost base = r@;
            let mut j: usize = 0;
            while j < ts.len()
                invariant
                    j <= ts@.len(),
                    tsv == ts.deep_view(),
                    r@ == base + tags_tokens(tsv.take(j as int)),
                decreases ts@.len() - j,
            {
                proof {
                    assert(tsv[j as int] == ts@[j as int]@);
                    assert(tsv.take(j + 1 as int).drop_last() =~= tsv.take(j as int));
                    assert(tsv.take(j + 1 as int).last() == tsv[j as int]);
                }
                if j > 0 {
                    push_char(&mut r, ' ');
                }
                push_char(&mut r, '#');
                r.append(ts[j].as_str());
                proof {
                    if j == 0 {
                        assert(tsv.take(1).len() == 1);
                        assert(tsv.take(1)[0] == tsv[0]);
                        assert(r@ =~= base + tags_tokens(tsv.take(1)));
                    } else {
                        assert(r@ =~= base + tags_tokens(tsv.take(j + 1 as int)));
                    }
                }
                j += 1;
            }
            proof {
                assert(tsv.take(tsv.len() as int) =~= tsv);
                assert(r@ =~= base + tags_tokens(tsv));
            }
        },
        None => {
            proof {
                assert(r@ =~= r@ + Seq::<char>::empty());
            }
        },
    }
    r
}

impl IndexStore {
    /// The mathematical store this value holds.
    pub closed spec fn model(&self) -> StoreModel {
        StoreModel {
            recs: recs_view(self.records@),
            words: words_view(self.words@),
            next_id: self.next_id,
        }
    }

    pub open spec fn wf(&self) -> bool {
        store_wf(self.model())
    }

    /// An empty store.
    pub fn new() -> (r: IndexStore)
        ensures
            r.wf(),
            r.model().recs.len() == 0,
            r.model().words.len() == 0,
            r.model().next_id == 1,
    {
        let r = IndexStore { records: Vec::new(), words: Vec::new(), next_id: 1 };
        proof {
            assert(r.model().recs =~= Seq::<RecModel>::empty());
            assert(r.model().words =~= Seq::<WordModel>::empty());
        }
        r
    }

    /// How many documents the store holds.
    pub fn size(&self) -> (r: usize)
        ensures
            r == self.model().recs.len(),
    {
        self.records.len()
    }

    /// The index of the record with this URI, or the record count.
    fn find_record(&self, uri: &String) -> (k: usize)
        ensures
            k == find_uri(self.model().recs, uri@, 0),
    {
        broadcast use lemma_find_uri;

        let ghost rv = self.model().recs;
        let n = self.records.len();
        let mut k: usize = 0;
        let mut found = false;
        while k < n && !found
            invariant
                k <= n == rv.len(),
                rv == self.model().recs,
                forall|j: int| 0 <= j < k ==> (#[trigger] rv[j]).uri != uri@,
                found ==> k < n && rv[k as int].uri == uri@,
            decreases n - k + (if found {
                0int
            } else {
                1int
            }),
        {
            proof {
                assert(rv[k as int] == rec_view(&self.records@[k as int]));
            }
            if self.records[k].uri == *uri {
                found = true;
            } else {
                k += 1;
            }
        }
        proof {
            let r = find_uri(rv, uri@, 0);
            if r < k {
                assert(rv[r].uri != uri@);
            }
            if r > k {
                assert(k < rv.len());
                assert(rv[k as int].uri != uri@);
            }
        }
        k
    }

    /// One document applied to the store.
    fn apply_doc(&mut self, d: &Document, cycle_ts: i64)
        requires
            old(self).wf(),
            old(self).model().next_id < u64::MAX,
        ensures
            final(self).wf(),
            final(self).model() == step(old(self).model(), doc_model(d), cycle_ts),
            final(self).model().next_id <= old(self).model().next_id + 1,
    {
        broadcast use lemma_find_uri;

        let ghost s0 = self.model();
        let ghost dm = doc_model(d);
        let uri = d.uri().clone();
        let i = self.find_record(&uri);
        let n = self.records.len();
        let dmod = d.modified();
        // the cheap unchanged check
        if i < n && dmod.is_some() {
            let m = dmod.unwrap();
            let rec_mod = self.records[i].modified;
            if rec_mod.is_some() && rec_mod.unwrap() >= m {
                proof {
                    assert(fast_path(s0, dm));
                    assert(s0.recs[i as int] == rec_view(&self.records@[i as int]));
                }
                let old_rec = &self.records[i];
                let updated = IndexRecord {
                    id: old_rec.id,
                    uri: old_rec.uri.clone(),
                    doc_type: match &old_rec.doc_type {
                        Some(t) => Some(t.clone()),
                        None => None,
                    },
                    title: old_rec.title.clone(),
                    markdown: old_rec.markdown.clone(),
                    created: old_rec.created,
                    modified: old_rec.modified,
                    last_seen_at: cycle_ts,
                };
                proof {
                    assert(rec_view(&updated) == touched(s0.recs[i as int], cycle_ts));
                }
                vstd::pervasive::VecAdditionalExecFns::set(&mut self.records, i, updated);
                proof {
                    assert(self.model().recs =~= s0.recs.update(
                        i as int,
                        touched(s0.recs[i as int], cycle_ts),
                    ));
                    assert(self.model().words =~= s0.words);
                    assert(self.model() =~= step(s0, dm, cycle_ts));
                }
                return ;
            }
        }
        proof {
            assert(!fast_path(s0, dm));
        }
        // the full write path: gather the document's fields
        let title: Option<String> = match d.title() {
            Some(t) => Some(t.to_owned()),
            None => None,
        };
        let doc_type = d.doc_type();
        let markdown = d.markdown();
        let text = d.text();
        let tags: Option<Vec<String>> = match d.front_matter() {
            Some(f) => match f.tags() {
                Some(v) => Some(v.clone()),
                None => None,
            },
            None => None,
        };
        proof {
            assert(opt_str_view(&title) == dm.title);
            assert((match &tags {
                Some(v) => Some(v.deep_view()),
                None => None,
            }) == dm.tags);
        }
        let word_text = word_text_exec(&title, &text, &tags);
        proof {
            assert(word_text@ == word_text_of(dm));
        }
        let stored_title = match &title {
            Some(t) => t.clone(),
            None => String::new(),
        };
        let id = if i < n {
            self.records[i].id
        } else {
            self.next_id
        };
        let rec = IndexRecord {
            id,
            uri,
            doc_type,
            title: stored_title.clone(),
            markdown,
            created: d.created(),
            modified: d.modified(),
            last_seen_at: cycle_ts,
        };
        let word = WordIndexRecord { document_id: id, title: stored_title, text: word_text };
        proof {
            assert(rec_view(&rec) == written_rec(dm, id, cycle_ts));
            assert(word_view(&word) == written_word(dm, id));
        }
        if i < n {
            vstd::pervasive::VecAdditionalExecFns::set(&mut self.records, i, rec);
            vstd::pervasive::VecAdditionalExecFns::set(&mut self.words, i, word);
            proof {
                assert(self.model().recs =~= s0.recs.update(
                    i as int,
                    written_rec(dm, s0.recs[i as int].id, cycle_ts),
                ));
                assert(self.model().words =~= s0.words.update(
                    i as int,
                    written_word(dm, s0.recs[i as int].id),
                ));
                assert(self.model() =~= step(s0, dm, cycle_ts));
            }
        } else {
            self.records.push(rec);
            self.words.push(word);
            self.next_id = self.next_id + 1;
            proof {
                assert(self.model().recs =~= s0.recs.push(
                    written_rec(dm, s0.next_id, cycle_ts),
                ));
                assert(self.model().words =~= s0.words.push(written_word(dm, s0.next_id)));
                assert(self.model() =~= step(s0, dm, cycle_ts));
            }
        }
        proof {
            lemma_step_wf(s0, dm, cycle_ts);
        }
    }
}

/// A step keeps the store well-formed.
pub proof fn lemma_step_wf(s: StoreModel, d: DocModel, ts: i64)
    requires
        store_wf(s),
        s.next_id < u64::MAX,
    ensures
        store_wf(step(s, d, ts)),
        step(s, d, ts).next_id <= s.next_id + 1,
        step(s, d, ts).recs.len() >= s.recs.len(),
{
    broadcast use lemma_find_uri;

    let i = find_uri(s.recs, d.uri, 0);
    let t = step(s, d, ts);
    if fast_path(s, d) {
        assert forall|a: int, b: int| 0 <= a < b < t.recs.len() implies (#[trigger] t.recs[a]).uri
            != (#[trigger] t.recs[b]).uri by {
            assert(s.recs[a].uri != s.recs[b].uri);
        }
    } else if i < s.recs.len() {
        assert forall|a: int, b: int| 0 <= a < b < t.recs.len() implies (#[trigger] t.recs[a]).uri
            != (#[trigger] t.recs[b]).uri by {
            assert(s.recs[a].uri != s.recs[b].uri);
            if a == i {
                assert(s.recs[b].uri != d.uri);
            }
            if b == i {
                assert(s.recs[a].uri != d.uri);
            }
        }
    } else {
        assert forall|a: int, b: int| 0 <= a < b < t.recs.len() implies (#[trigger] t.recs[a]).uri
            != (#[trigger] t.recs[b]).uri by {
            if b < s.recs.len() {
                assert(s.recs[a].uri != s.recs[b].uri);
            } else {
                assert(s.recs[a].uri != d.uri);
            }
        }
    }
}

} // verus!

verus! {

/// Steps keep the store well-formed.
pub proof fn lemma_steps_wf(s: StoreModel, docs: Seq<DocModel>, ts: i64)
    requires
        store_wf(s),
        s.next_id + docs.len() <= u64::MAX,
    ensures
        store_wf(steps(s, docs, ts)),
        steps(s, docs, ts).next_id <= s.next_id + docs.len(),
        steps(s, docs, ts).recs.len() >= s.recs.len(),
    decreases docs.len(),
{
    if docs.len() > 0 {
        lemma_steps_wf(s, docs.drop_last(), ts);
        lemma_step_wf(steps(s, docs.drop_last(), ts), docs.last(), ts);
    }
}

/// The source row that pruned row `a` comes from.
pub open spec fn prune_src(recs: Seq<RecModel>, ts: i64, a: int) -> int
    decreases recs.len(),
{
    if recs.len() == 0 {
        0
    } else if recs.last().last_seen_at >= ts {
        if a == prune_recs(recs, ts).len() - 1 {
            recs.len() - 1
        } else {
            prune_src(recs.drop_last(), ts, a)
        }
    } else {
        prune_src(recs.drop_last(), ts, a)
    }
}

/// Pruning keeps a subsequence of the aligned rows: row `a` of the pruned
/// store is source row `prune_src(recs, ts, a)`, and the map is strictly
/// increasing.
pub proof fn lemma_prune_pointwise(recs: Seq<RecModel>, words: Seq<WordModel>, ts: i64)
    requires
        recs.len() == words.len(),
    ensures
        prune_recs(recs, ts).len() == prune_words(recs, words, ts).len(),
        prune_recs(recs, ts).len() <= recs.len(),
        forall|a: int|
            0 <= a < prune_recs(recs, ts).len() ==> {
                let ka = #[trigger] prune_src(recs, ts, a);
                &&& 0 <= ka < recs.len()
                &&& recs[ka] == prune_recs(recs, ts)[a]
                &&& words[ka] == prune_words(recs, words, ts)[a]
                &&& recs[ka].last_seen_at >= ts
            },
        forall|a: int, b: int|
            0 <= a < b < prune_recs(recs, ts).len() ==> #[trigger] prune_src(recs, ts, a)
                < #[trigger] prune_src(recs, ts, b),
    decreases recs.len(),
{
    if recs.len() > 0 {
        lemma_prune_pointwise(recs.drop_last(), words.drop_last(), ts);
        let pr = prune_recs(recs, ts);
        let pw = prune_words(recs, words, ts);
        let pr0 = prune_recs(recs.drop_last(), ts);
        let pw0 = prune_words(recs.drop_last(), words.drop_last(), ts);
        assert forall|a: int| 0 <= a < pr.len() implies {
            let ka = #[trigger] prune_src(recs, ts, a);
            &&& 0 <= ka < recs.len()
            &&& recs[ka] == pr[a]
            &&& words[ka] == pw[a]
            &&& recs[ka].last_seen_at >= ts
        } by {
            if a < pr0.len() {
                assert(prune_src(recs.drop_last(), ts, a) == prune_src(recs, ts, a));
                assert(recs.drop_last()[prune_src(recs, ts, a)] == pr0[a]);
                assert(words.drop_last()[prune_src(recs, ts, a)] == pw0[a]);
            }
        }
        assert forall|a: int, b: int| 0 <= a < b < pr.len() implies #[trigger] prune_src(
            recs,
            ts,
            a,
        ) < #[trigger] prune_src(recs, ts, b) by {
            if b < pr0.len() {
                assert(prune_src(recs.drop_last(), ts, a) < prune_src(recs.drop_last(), ts, b));
            } else {
                // b is the last kept row; a maps into the shorter prefix
                assert(a < pr0.len());
                assert(prune_src(recs.drop_last(), ts, a) < recs.drop_last().len());
            }
        }
    }
}

/// Pruning keeps the store well-formed: it keeps a subsequence of the
/// aligned rows.
pub proof fn lemma_prune_wf(s: StoreModel, ts: i64)
    requires
        store_wf(s),
    ensures
        store_wf(
            StoreModel {
                recs: prune_recs(s.recs, ts),
                words: prune_words(s.recs, s.words, ts),
                next_id: s.next_id,
            },
        ),
{
    lemma_prune_pointwise(s.recs, s.words, ts);
    let pr = prune_recs(s.recs, ts);
    let pw = prune_words(s.recs, s.words, ts);
    assert forall|a: int, b: int| 0 <= a < b < pr.len() implies (#[trigger] pr[a]).uri
        != (#[trigger] pr[b]).uri by {
        let ka = prune_src(s.recs, ts, a);
        let kb = prune_src(s.recs, ts, b);
        assert(s.recs[ka].uri != s.recs[kb].uri);
    }
    assert forall|a: int, b: int| 0 <= a < b < pr.len() implies (#[trigger] pr[a]).id
        != (#[trigger] pr[b]).id by {
        let ka = prune_src(s.recs, ts, a);
        let kb = prune_src(s.recs, ts, b);
        assert(s.recs[ka].id != s.recs[kb].id);
    }
    assert forall|a: int| 0 <= a < pr.len() implies (#[trigger] pw[a]).document_id
        == pr[a].id by {
        let ka = prune_src(s.recs, ts, a);
        assert(s.words[ka].document_id == s.recs[ka].id);
    }
    assert forall|a: int| 0 <= a < pr.len() implies (#[trigger] pr[a]).id < s.next_id by {
        let ka = prune_src(s.recs, ts, a);
        assert(s.recs[ka].id < s.next_id);
    }
}

impl IndexStore {
    /// One incremental refresh cycle: every document of the enumeration is
    /// applied in order (stamped when unchanged, rewritten in place when
    /// changed, inserted when new), then every record the cycle did not
    /// observe is removed together with its projection row.
    pub fn refresh(&mut self, docs: &Vec<Document>, cycle_ts: i64)
        requires
            old(self).wf(),
            forall|i: int|
                0 <= i < old(self).model().recs.len() ==> (#[trigger] old(
                    self,
                ).model().recs[i]).last_seen_at < cycle_ts,
            old(self).model().next_id + docs@.len() <= u64::MAX,
        ensures
            final(self).wf(),
            final(self).model() == refresh_spec(old(self).model(), docs_model(docs@), cycle_ts),
    {
        let ghost s0 = self.model();
        let ghost dm = docs_model(docs@);
        let mut k: usize = 0;
        while k < docs.len()
            invariant
                k <= docs@.len(),
                dm == docs_model(docs@),
                store_wf(self.model()),
                s0.next_id + docs@.len() <= u64::MAX,
                self.model().next_id <= s0.next_id + k,
                self.model() == steps(s0, dm.take(k as int), cycle_ts),
            decreases docs@.len() - k,
        {
            proof {
                assert(dm[k as int] == doc_model(&docs@[k as int]));
                assert(dm.take(k + 1 as int).drop_last() =~= dm.take(k as int));
                assert(dm.take(k + 1 as int).last() == dm[k as int]);
            }
            self.apply_doc(&docs[k], cycle_ts);
            k += 1;
        }
        proof {
            assert(dm.take(dm.len() as int) =~= dm);
        }
        let ghost t = self.model();
        // prune everything the cycle did not observe
        let mut kept_recs: Vec<IndexRecord> = Vec::new();
        let mut kept_words: Vec<WordIndexRecord> = Vec::new();
        let mut p: usize = 0;
        proof {
            assert(recs_view(kept_recs@) =~= prune_recs(t.recs.take(0), cycle_ts));
            assert(words_view(kept_words@) =~= prune_words(
                t.recs.take(0),
                t.words.take(0),
                cycle_ts,
            ));
        }
        while p < self.records.len()
            invariant
                p <= self.records@.len(),
                t == self.model(),
                store_wf(t),
                recs_view(kept_recs@) == prune_recs(t.recs.take(p as int), cycle_ts),
                words_view(kept_words@) == prune_words(
                    t.recs.take(p as int),
                    t.words.take(p as int),
                    cycle_ts,
                ),
            decreases self.records@.len() - p,
        {
            proof {
                assert(t.recs[p as int] == rec_view(&self.records@[p as int]));
                assert(t.words[p as int] == word_view(&self.words@[p as int]));
                assert(t.recs.take(p + 1 as int).drop_last() =~= t.recs.take(p as int));
                assert(t.words.take(p + 1 as int).drop_last() =~= t.words.take(p as int));
                assert(t.recs.take(p + 1 as int).last() == t.recs[p as int]);
                assert(t.words.take(p + 1 as int).last() == t.words[p as int]);
            }
            if self.records[p].last_seen_at >= cycle_ts {
                let ghost kr0 = recs_view(kept_recs@);
                let ghost kw0 = words_view(kept_words@);
                let rec = copy_record(&self.records[p]);
                let word = copy_word_record(&self.words[p]);
                let ghost rm = rec_view(&rec);
                let ghost wm = word_view(&word);
                kept_recs.push(rec);
                kept_words.push(word);
                proof {
                    assert forall|j: int|
                        0 <= j < kept_recs@.len() implies recs_view(kept_recs@)[j] == (kr0
                        + seq![rm])[j] by {
                        assert(recs_view(kept_recs@)[j] == rec_view(&kept_recs@[j]));
                    }
                    assert(recs_view(kept_recs@) =~= kr0 + seq![rm]);
                    assert forall|j: int|
                        0 <= j < kept_words@.len() implies words_view(kept_words@)[j] == (kw0
                        + seq![wm])[j] by {
                        assert(words_view(kept_words@)[j] == word_view(&kept_words@[j]));
                    }
                    assert(words_view(kept_words@) =~= kw0 + seq![wm]);
                    assert(recs_view(kept_recs@) =~= prune_recs(
                        t.recs.take(p + 1 as int),
                        cycle_ts,
                    ));
                    assert(words_view(kept_words@) =~= prune_words(
                        t.recs.take(p + 1 as int),
                        t.words.take(p + 1 as int),
                        cycle_ts,
                    ));
                }
            } else {
                proof {
                    assert(recs_view(kept_recs@) =~= prune_recs(
                        t.recs.take(p + 1 as int),
                        cycle_ts,
                    ));
                    assert(words_view(kept_words@) =~= prune_words(
                        t.recs.take(p + 1 as int),
                        t.words.take(p + 1 as int),
                        cycle_ts,
                    ));
                }
            }
            p += 1;
        }
        proof {
            assert(t.recs.take(t.recs.len() as int) =~= t.recs);
            assert(t.words.take(t.words.len() as int) =~= t.words);
        }
        self.records = kept_recs;
        self.words = kept_words;
        proof {
            lemma_steps_wf(s0, dm, cycle_ts);
            lemma_prune_wf(t, cycle_ts);
            assert(self.model() =~= refresh_spec(s0, dm, cycle_ts));
        }
    }
}

/// A copy of a record.
fn copy_record(r: &IndexRecord) -> (c: IndexRecord)
    ensures
        rec_view(&c) == rec_view(r),
{
    IndexRecord {
        id: r.id,
        uri: r.uri.clone(),
        doc_type: match &r.doc_type {
            Some(t) => Some(t.clone()),
            None => None,
        },
        title: r.title.clone(),
        markdown: r.markdown.clone(),
        created: r.created,
        modified: r.modified,
        last_seen_at: r.last_seen_at,
    }
}

/// A copy of a projection row.
fn copy_word_record(w: &WordIndexRecord) -> (c: WordIndexRecord)
    ensures
        word_view(&c) == word_view(w),
{
    WordIndexRecord { document_id: w.document_id, title: w.title.clone(), text: w.text.clone() }
}

} // verus!

verus! {

// ---------------------------------------------------------------------------
// Search
// ---------------------------------------------------------------------------

/// One search result: resolved title, source reference, type and the
/// normalized markdown.
pub struct Entry {
    title: String,
    url: String,
    doc_type: Option<String>,
    markdown: String,
}

impl Entry {
    /// The mathematical value this entry holds.
    pub closed spec fn model(&self) -> EntryModel {
        EntryModel {
            title: self.title@,
            url: self.url@,
            doc_type: opt_str_view(&self.doc_type),
            markdown: self.markdown@,
        }
    }

    /// An entry built from its parts.
    pub fn new(url: String, title: String, markdown: String, doc_type: Option<String>) -> (r:
        Entry)
        ensures
            r.model() == (EntryModel {
                title: title@,
                url: url@,
                doc_type: opt_str_view(&doc_type),
                markdown: markdown@,
            }),
    {
        Entry { title, url, doc_type, markdown }
    }

    /// The reference of the matched document.
    pub fn uri(&self) -> (r: &str)
        ensures
            r@ == self.model().url,
    {
        self.url.as_str()
    }

    /// The resolved title of the matched document.
    pub fn title(&self) -> (r: &str)
        ensures
            r@ == self.model().title,
    {
        self.title.as_str()
    }

    /// The resolved type of the matched document.
    pub fn doc_type(&self) -> (r: Option<&str>)
        ensures
            match r {
                Some(t) => self.model().doc_type == Some(t@),
                None => self.model().doc_type is None,
            },
    {
        match &self.doc_type {
            Some(t) => Some(t.as_str()),
            None => None,
        }
    }

    /// The normalized markdown of the matched document.
    pub fn markdown(&self) -> (r: &str)
        ensures
            r@ == self.model().markdown,
    {
        self.markdown.as_str()
    }
}

pub open spec fn entries_view(s: Seq<Entry>) -> Seq<EntryModel> {
    Seq::new(s.len(), |i: int| s[i].model())
}

/// Whether two entries hold the same values.
fn entry_eq(a: &Entry, b: &Entry) -> (r: bool)
    ensures
        r == (a.model() == b.model()),
{
    let base = a.title == b.title && a.url == b.url && a.markdown == b.markdown;
    match (&a.doc_type, &b.doc_type) {
        (Some(x), Some(y)) => {
            let r = base && *x == *y;
            proof {
                assert(a.model().doc_type == Some(x@));
                assert(b.model().doc_type == Some(y@));
                if r {
                    assert(a.model() =~= b.model());
                }
            }
            r
        },
        (None, None) => {
            let r = base;
            proof {
                if r {
                    assert(a.model() =~= b.model());
                }
            }
            r
        },
        (Some(x), None) => {
            proof {
                assert(a.model().doc_type == Some(x@));
                assert(b.model().doc_type is None);
            }
            false
        },
        (None, Some(y)) => {
            proof {
                assert(a.model().doc_type is None);
                assert(b.model().doc_type == Some(y@));
            }
            false
        },
    }
}

/// A copy of an entry.
fn entry_clone(e: &Entry) -> (r: Entry)
    ensures
        r.model() == e.model(),
{
    Entry {
        title: e.title.clone(),
        url: e.url.clone(),
        doc_type: match &e.doc_type {
            Some(t) => Some(t.clone()),
            None => None,
        },
        markdown: e.markdown.clone(),
    }
}

/// Whether some entry of `acc` holds the same values as `e`.
fn contains_entry(acc: &Vec<Entry>, e: &Entry) -> (r: bool)
    ensures
        r == entries_view(acc@).contains(e.model()),
{
    let ghost av = entries_view(acc@);
    let mut i: usize = 0;
    while i < acc.len()
        invariant
            i <= acc@.len(),
            av == entries_view(acc@),
            forall|j: int| 0 <= j < i ==> av[j] != e.model(),
        decreases acc@.len() - i,
    {
        proof {
            assert(av[i as int] == acc@[i as int].model());
        }
        if entry_eq(&acc[i], e) {
            assert(av.contains(e.model()));
            return true;
        }
        i += 1;
    }
    proof {
        if av.contains(e.model()) {
            let j = choose|j: int| 0 <= j < av.len() && av[j] == e.model();
            assert(false);
        }
    }
    false
}

/// The ordered results of one search.
pub struct SearchResults {
    entries: Vec<Entry>,
}

impl SearchResults {
    /// The mathematical value these results hold.
    pub closed spec fn model(&self) -> Seq<EntryModel> {
        entries_view(self.entries@)
    }

    /// The entries, in rank order.
    pub fn entries(&self) -> (r: &Vec<Entry>)
        ensures
            entries_view(r@) == self.model(),
    {
        &self.entries
    }

    /// How many entries matched.
    pub fn len(&self) -> (r: usize)
        ensures
            r == self.model().len(),
    {
        self.entries.len()
    }
}

impl IndexStore {
    /// The records whose projection matches the query in the chosen field,
    /// in rank order.
    fn field_hits(&self, q: &Vec<char>, in_title: bool) -> (r: Vec<Entry>)
        requires
            self.wf(),
        ensures
            entries_view(r@) == hits(self.model().recs, self.model().words, q@, in_title),
    {
        let ghost rv = self.model().recs;
        let ghost wv = self.model().words;
        let mut r: Vec<Entry> = Vec::new();
        let mut i: usize = 0;
        proof {
            assert(entries_view(r@) =~= hits(rv.take(0), wv.take(0), q@, in_title));
        }
        while i < self.records.len()
            invariant
                i <= self.records@.len(),
                rv == self.model().recs,
                wv == self.model().words,
                store_wf(self.model()),
                entries_view(r@) == hits(rv.take(i as int), wv.take(i as int), q@, in_title),
            decreases self.records@.len() - i,
        {
            proof {
                assert(rv[i as int] == rec_view(&self.records@[i as int]));
                assert(wv[i as int] == word_view(&self.words@[i as int]));
                assert(rv.take(i + 1 as int).drop_last() =~= rv.take(i as int));
                assert(wv.take(i + 1 as int).drop_last() =~= wv.take(i as int));
                assert(rv.take(i + 1 as int).last() == rv[i as int]);
                assert(wv.take(i + 1 as int).last() == wv[i as int]);
            }
            let field = if in_title {
                &self.words[i].title
            } else {
                &self.words[i].text
            };
            let text = str_to_chars(field.as_str());
            let hit = query_match(q, &text);
            if hit {
                let rec = &self.records[i];
                let e = Entry {
                    title: rec.title.clone(),
                    url: rec.uri.clone(),
                    doc_type: match &rec.doc_type {
                        Some(t) => Some(t.clone()),
                        None => None,
                    },
                    markdown: rec.markdown.clone(),
                };
                let ghost em = e.model();
                let ghost before = entries_view(r@);
                proof {
                    assert(em == entry_of(rv[i as int]));
                }
                r.push(e);
                proof {
                    assert forall|j: int|
                        0 <= j < r@.len() implies entries_view(r@)[j] == (before + seq![em])[j] by {
                        assert(entries_view(r@)[j] == r@[j].model());
                    }
                    assert(entries_view(r@) =~= before + seq![em]);
                    assert(entries_view(r@) =~= hits(
                        rv.take(i + 1 as int),
                        wv.take(i + 1 as int),
                        q@,
                        in_title,
                    ));
                }
            } else {
                proof {
                    assert(entries_view(r@) =~= hits(
                        rv.take(i + 1 as int),
                        wv.take(i + 1 as int),
                        q@,
                        in_title,
                    ));
                }
            }
            i += 1;
        }
        proof {
            assert(rv.take(rv.len() as int) =~= rv);
            assert(wv.take(wv.len() as int) =~= wv);
        }
        r
    }

    /// One ranked search: the query is split on spaces into terms, every
    /// term must match, and a term matches as a case-insensitive prefix of
    /// a token. Title-field matches come first in rank order, then
    /// text-field matches not already present.
    pub fn search(&self, query: &str) -> (r: SearchResults)
        requires
            self.wf(),
        ensures
            r.model() == search_spec(self.model(), query@),
    {
        let q = str_to_chars(query);
        let title_hits = self.field_hits(&q, true);
        let text_hits = self.field_hits(&q, false);
        let ghost th = entries_view(title_hits@);
        let ghost xh = entries_view(text_hits@);
        let mut acc = title_hits;
        let mut j: usize = 0;
        proof {
            assert(xh.skip(0) =~= xh);
        }
        while j < text_hits.len()
            invariant
                j <= text_hits@.len(),
                xh == entries_view(text_hits@),
                merge(entries_view(acc@), xh.skip(j as int)) == merge(th, xh),
            decreases text_hits@.len() - j,
        {
            proof {
                assert(xh[j as int] == text_hits@[j as int].model());
                assert(xh.skip(j as int).first() == xh[j as int]);
                assert(xh.skip(j as int).drop_first() =~= xh.skip(j + 1 as int));
            }
            let e = &text_hits[j];
            let present = contains_entry(&acc, e);
            if !present {
                let c = entry_clone(e);
                let ghost before = entries_view(acc@);
                acc.push(c);
                proof {
                    assert forall|k: int|
                        0 <= k < acc@.len() implies entries_view(acc@)[k] == before.push(
                        xh[j as int],
                    )[k] by {
                        assert(entries_view(acc@)[k] == acc@[k].model());
                    }
                    assert(entries_view(acc@) =~= before.push(xh[j as int]));
                }
            }
            j += 1;
        }
        proof {
            assert(xh.skip(xh.len() as int) =~= Seq::<EntryModel>::empty());
        }
        SearchResults { entries: acc }
    }
}

} // verus!

verus! {

// ---------------------------------------------------------------------------
// Laws of the refresh cycle
// ---------------------------------------------------------------------------

/// Whether some document of the enumeration carries this URI.
pub open spec fn doc_uris_contain(docs: Seq<DocModel>, u: Seq<char>) -> bool {
    exists|k: int| 0 <= k < docs.len() && (#[trigger] docs[k]).uri == u
}

/// After the step phase of a cycle, a record is stamped with the cycle's
/// timestamp exactly when some document of the enumeration carries its
/// URI.
pub proof fn lemma_steps_stamp(s: StoreModel, docs: Seq<DocModel>, ts: i64)
    requires
        store_wf(s),
        s.next_id + docs.len() <= u64::MAX,
        forall|i: int| 0 <= i < s.recs.len() ==> (#[trigger] s.recs[i]).last_seen_at < ts,
    ensures
        ({
            let t = steps(s, docs, ts);
            &&& forall|i: int|
                0 <= i < t.recs.len() ==> ((#[trigger] t.recs[i]).last_seen_at >= ts
                    <==> doc_uris_contain(docs, t.recs[i].uri))
            &&& forall|i: int|
                0 <= i < t.recs.len() ==> ((#[trigger] t.recs[i]).last_seen_at >= ts
                    ==> t.recs[i].last_seen_at == ts)
        }),
    decreases docs.len(),
{
    broadcast use lemma_find_uri;

    if docs.len() > 0 {
        lemma_steps_stamp(s, docs.drop_last(), ts);
        lemma_steps_wf(s, docs.drop_last(), ts);
        let t0 = steps(s, docs.drop_last(), ts);
        let d = docs.last();
        let t = step(t0, d, ts);
        assert forall|i: int| 0 <= i < t.recs.len() implies ((#[trigger] t.recs[i]).last_seen_at
            >= ts <==> doc_uris_contain(docs, t.recs[i].uri)) by {
            let f = find_uri(t0.recs, d.uri, 0);
            if i < t0.recs.len() && i != f {
                // an untouched record
                assert(t.recs[i] == t0.recs[i]);
                if t.recs[i].last_seen_at >= ts {
                    assert(doc_uris_contain(docs.drop_last(), t0.recs[i].uri));
                    let k = choose|k: int|
                        0 <= k < docs.drop_last().len() && (#[trigger] docs.drop_last()[k]).uri
                            == t0.recs[i].uri;
                    assert(docs[k].uri == t.recs[i].uri);
                }
                if doc_uris_contain(docs, t.recs[i].uri) {
                    let k = choose|k: int|
                        0 <= k < docs.len() && (#[trigger] docs[k]).uri == t.recs[i].uri;
                    if k == docs.len() - 1 {
                        // this record would be the one found for d
                        assert(t0.recs[i].uri == d.uri);
                        if f < t0.recs.len() {
                            assert(t0.recs[f].uri == d.uri);
                            if i != f {
                                if i < f {
                                    assert(t0.recs[i].uri != d.uri);
                                }
                                assert(false);
                            }
                        }
                        assert(false);
                    } else {
                        assert(docs.drop_last()[k] == docs[k]);
                        assert(doc_uris_contain(docs.drop_last(), t0.recs[i].uri));
                    }
                }
            } else {
                // the record d touched, wrote, or inserted
                assert(t.recs[i].last_seen_at == ts);
                assert(t.recs[i].uri == d.uri);
                assert(docs[docs.len() - 1].uri == t.recs[i].uri);
            }
        }
    }
}

/// When every record carries the cycle stamp, pruning keeps everything.
pub proof fn lemma_prune_identity(recs: Seq<RecModel>, words: Seq<WordModel>, ts: i64)
    requires
        recs.len() == words.len(),
        forall|i: int| 0 <= i < recs.len() ==> (#[trigger] recs[i]).last_seen_at >= ts,
    ensures
        prune_recs(recs, ts) == recs,
        prune_words(recs, words, ts) == words,
    decreases recs.len(),
{
    if recs.len() > 0 {
        lemma_prune_identity(recs.drop_last(), words.drop_last(), ts);
        assert(prune_recs(recs, ts) =~= recs);
        assert(prune_words(recs, words, ts) =~= words);
    }
}

/// When no record carries the cycle stamp, pruning removes everything.
pub proof fn lemma_prune_all(recs: Seq<RecModel>, words: Seq<WordModel>, ts: i64)
    requires
        recs.len() == words.len(),
        forall|i: int| 0 <= i < recs.len() ==> (#[trigger] recs[i]).last_seen_at < ts,
    ensures
        prune_recs(recs, ts).len() == 0,
        prune_words(recs, words, ts).len() == 0,
    decreases recs.len(),
{
    if recs.len() > 0 {
        lemma_prune_all(recs.drop_last(), words.drop_last(), ts);
    }
}

/// Empty enumeration: refreshing against no documents leaves a store with
/// no documents, and every query then returns no results.
pub proof fn lemma_empty_refresh(s: StoreModel, ts: i64, q: Seq<char>)
    requires
        store_wf(s),
        forall|i: int| 0 <= i < s.recs.len() ==> (#[trigger] s.recs[i]).last_seen_at < ts,
    ensures
        refresh_spec(s, Seq::<DocModel>::empty(), ts).recs.len() == 0,
        refresh_spec(s, Seq::<DocModel>::empty(), ts).words.len() == 0,
        search_spec(refresh_spec(s, Seq::<DocModel>::empty(), ts), q).len() == 0,
{
    lemma_prune_all(s.recs, s.words, ts);
    let f = refresh_spec(s, Seq::<DocModel>::empty(), ts);
    assert(f.recs.len() == 0);
    assert(hits(f.recs, f.words, q, true) =~= Seq::<EntryModel>::empty());
    assert(hits(f.recs, f.words, q, false) =~= Seq::<EntryModel>::empty());
}

/// No result of a field pass refers to a URI no record holds.
pub proof fn lemma_hits_urls(
    recs: Seq<RecModel>,
    words: Seq<WordModel>,
    q: Seq<char>,
    in_title: bool,
    u: Seq<char>,
)
    requires
        forall|i: int| 0 <= i < recs.len() ==> (#[trigger] recs[i]).uri != u,
    ensures
        forall|k: int|
            0 <= k < hits(recs, words, q, in_title).len() ==> (#[trigger] hits(
                recs,
                words,
                q,
                in_title,
            )[k]).url != u,
    decreases recs.len(),
{
    if recs.len() > 0 && words.len() >= recs.len() {
        lemma_hits_urls(recs.drop_last(), words.drop_last(), q, in_title, u);
        assert(recs[recs.len() - 1].uri != u);
    }
}

/// Merging keeps every result's URL among those of its two inputs.
pub proof fn lemma_merge_urls(acc: Seq<EntryModel>, rest: Seq<EntryModel>, u: Seq<char>)
    requires
        forall|k: int| 0 <= k < acc.len() ==> (#[trigger] acc[k]).url != u,
        forall|k: int| 0 <= k < rest.len() ==> (#[trigger] rest[k]).url != u,
    ensures
        forall|k: int| 0 <= k < merge(acc, rest).len() ==> (#[trigger] merge(acc, rest)[k]).url
            != u,
    decreases rest.len(),
{
    if rest.len() > 0 {
        let acc2 = if acc.contains(rest.first()) {
            acc
        } else {
            acc.push(rest.first())
        };
        assert forall|k: int| 0 <= k < acc2.len() implies (#[trigger] acc2[k]).url != u by {
            if k < acc.len() {
                assert(acc[k].url != u);
            } else {
                assert(rest[0].url != u);
            }
        }
        assert forall|k: int| 0 <= k < rest.drop_first().len() implies (#[trigger] rest.drop_first(
        )[k]).url != u by {
            assert(rest[k + 1].url != u);
        }
        lemma_merge_urls(acc2, rest.drop_first(), u);
    }
}

/// Removal convergence: a URI no document of the enumeration carries is
/// gone from the store after one refresh cycle, and no query returns it.
pub proof fn lemma_removal_convergence(
    s: StoreModel,
    docs: Seq<DocModel>,
    ts: i64,
    u: Seq<char>,
    q: Seq<char>,
)
    requires
        store_wf(s),
        s.next_id + docs.len() <= u64::MAX,
        forall|i: int| 0 <= i < s.recs.len() ==> (#[trigger] s.recs[i]).last_seen_at < ts,
        forall|k: int| 0 <= k < docs.len() ==> (#[trigger] docs[k]).uri != u,
    ensures
        !has_uri(refresh_spec(s, docs, ts).recs, u),
        forall|k: int|
            0 <= k < search_spec(refresh_spec(s, docs, ts), q).len() ==> (#[trigger] search_spec(
                refresh_spec(s, docs, ts),
                q,
            )[k]).url != u,
{
    lemma_steps_stamp(s, docs, ts);
    lemma_steps_wf(s, docs, ts);
    let t = steps(s, docs, ts);
    lemma_prune_pointwise(t.recs, t.words, ts);
    let f = refresh_spec(s, docs, ts);
    assert forall|a: int| 0 <= a < f.recs.len() implies (#[trigger] f.recs[a]).uri != u by {
        let ka = prune_src(t.recs, ts, a);
        assert(t.recs[ka].last_seen_at >= ts);
        assert(doc_uris_contain(docs, t.recs[ka].uri));
        if t.recs[ka].uri == u {
            let k = choose|k: int| 0 <= k < docs.len() && (#[trigger] docs[k]).uri == u;
            assert(false);
        }
    }
    if has_uri(f.recs, u) {
        let i = choose|i: int| 0 <= i < f.recs.len() && (#[trigger] f.recs[i]).uri == u;
        assert(false);
    }
    lemma_hits_urls(f.recs, f.words, q, true, u);
    lemma_hits_urls(f.recs, f.words, q, false, u);
    lemma_merge_urls(hits(f.recs, f.words, q, true), hits(f.recs, f.words, q, false), u);
}

} // verus!

verus! {

/// When every document's URI is already present, the step phase rewrites
/// in place: the records keep their count, their order, their URIs and
/// their ids.
pub proof fn lemma_steps_in_place(s: StoreModel, docs: Seq<DocModel>, ts: i64)
    requires
        store_wf(s),
        s.next_id + docs.len() <= u64::MAX,
        forall|k: int| 0 <= k < docs.len() ==> has_uri(s.recs, (#[trigger] docs[k]).uri),
    ensures
        ({
            let t = steps(s, docs, ts);
            &&& t.recs.len() == s.recs.len()
            &&& t.next_id == s.next_id
            &&& forall|i: int|
                0 <= i < s.recs.len() ==> (#[trigger] t.recs[i]).uri == s.recs[i].uri
            &&& forall|i: int| 0 <= i < s.recs.len() ==> (#[trigger] t.recs[i]).id == s.recs[i].id
        }),
    decreases docs.len(),
{
    broadcast use lemma_find_uri;

    if docs.len() > 0 {
        assert forall|k: int|
            0 <= k < docs.drop_last().len() implies has_uri(
            s.recs,
            (#[trigger] docs.drop_last()[k]).uri,
        ) by {
            assert(has_uri(s.recs, docs[k].uri));
        }
        lemma_steps_in_place(s, docs.drop_last(), ts);
        lemma_steps_wf(s, docs.drop_last(), ts);
        let t0 = steps(s, docs.drop_last(), ts);
        let d = docs.last();
        let f = find_uri(t0.recs, d.uri, 0);
        assert(has_uri(s.recs, d.uri));
        let i0 = choose|i0: int| 0 <= i0 < s.recs.len() && (#[trigger] s.recs[i0]).uri == d.uri;
        assert(t0.recs[i0].uri == d.uri);
        if f >= t0.recs.len() {
            assert(t0.recs[i0].uri != d.uri);
            assert(false);
        }
    }
}

/// Update semantics, the count side: when the enumeration carries exactly
/// the URIs the store already holds, a refresh cycle leaves the document
/// count unchanged, whatever contents and timestamps the documents now
/// have.
pub proof fn lemma_count_preserved(s: StoreModel, docs: Seq<DocModel>, ts: i64)
    requires
        store_wf(s),
        s.next_id + docs.len() <= u64::MAX,
        forall|i: int| 0 <= i < s.recs.len() ==> (#[trigger] s.recs[i]).last_seen_at < ts,
        forall|k: int| 0 <= k < docs.len() ==> has_uri(s.recs, (#[trigger] docs[k]).uri),
        forall|i: int|
            0 <= i < s.recs.len() ==> doc_uris_contain(docs, (#[trigger] s.recs[i]).uri),
    ensures
        refresh_spec(s, docs, ts).recs.len() == s.recs.len(),
{
    lemma_steps_in_place(s, docs, ts);
    lemma_steps_stamp(s, docs, ts);
    lemma_steps_wf(s, docs, ts);
    let t = steps(s, docs, ts);
    assert forall|i: int| 0 <= i < t.recs.len() implies (#[trigger] t.recs[i]).last_seen_at
        >= ts by {
        assert(t.recs[i].uri == s.recs[i].uri);
        assert(doc_uris_contain(docs, s.recs[i].uri));
    }
    lemma_prune_identity(t.recs, t.words, ts);
}

} // verus!

verus! {

/// A record with its cycle stamp erased: what of it outlives a refresh.
pub open spec fn rec_strip(r: RecModel) -> RecModel {
    RecModel { last_seen_at: 0, ..r }
}

/// A stored pair carries a document: either the cheap unchanged check
/// would accept it, or the pair holds exactly what a write for the
/// document would produce.
pub open spec fn compat(rec: RecModel, word: WordModel, d: DocModel) -> bool {
    ||| (d.modified is Some && rec.modified is Some && rec.modified->0 >= d.modified->0)
    ||| (rec_strip(rec) == rec_strip(written_rec(d, rec.id, 0)) && word == written_word(
        d,
        rec.id,
    ))
}

/// Where a kept source row lands in the pruned store.
pub open spec fn prune_dst(recs: Seq<RecModel>, ts: i64, k: int) -> int {
    prune_recs(recs.take(k + 1), ts).len() - 1
}

/// Every source row carrying the cycle stamp survives pruning, at
/// `prune_dst`.
pub proof fn lemma_prune_complete(recs: Seq<RecModel>, words: Seq<WordModel>, ts: i64, k: int)
    requires
        recs.len() == words.len(),
        0 <= k < recs.len(),
        recs[k].last_seen_at >= ts,
    ensures
        ({
            let a = prune_dst(recs, ts, k);
            &&& 0 <= a < prune_recs(recs, ts).len()
            &&& prune_recs(recs, ts)[a] == recs[k]
            &&& prune_words(recs, words, ts)[a] == words[k]
        }),
    decreases recs.len(),
{
    if k == recs.len() - 1 {
        assert(recs.take(k + 1) =~= recs);
        assert(prune_recs(recs, ts) == prune_recs(recs.drop_last(), ts) + seq![recs.last()]);
        assert(prune_words(recs, words, ts) == prune_words(
            recs.drop_last(),
            words.drop_last(),
            ts,
        ) + seq![words.last()]);
        lemma_prune_pointwise(recs.drop_last(), words.drop_last(), ts);
        let a = prune_dst(recs, ts, k);
        assert(a == prune_recs(recs, ts).len() - 1);
        assert(prune_recs(recs, ts)[a] == recs[k]);
        assert(prune_words(recs, words, ts)[a] == words[k]);
    } else {
        lemma_prune_complete(recs.drop_last(), words.drop_last(), ts, k);
        lemma_prune_pointwise(recs.drop_last(), words.drop_last(), ts);
        assert(recs.drop_last().take(k + 1) =~= recs.take(k + 1));
        assert(recs.drop_last()[k] == recs[k]);
        assert(words.drop_last()[k] == words[k]);
        let a = prune_dst(recs, ts, k);
        assert(a == prune_dst(recs.drop_last(), ts, k));
        assert(0 <= a < prune_recs(recs.drop_last(), ts).len());
        assert(prune_recs(recs, ts) == prune_recs(recs.drop_last(), ts) + (if recs.last(
        ).last_seen_at >= ts {
            seq![recs.last()]
        } else {
            Seq::<RecModel>::empty()
        }));
        assert(prune_words(recs, words, ts) == prune_words(
            recs.drop_last(),
            words.drop_last(),
            ts,
        ) + (if recs.last().last_seen_at >= ts {
            seq![words.last()]
        } else {
            Seq::<WordModel>::empty()
        }));
        assert(prune_words(recs.drop_last(), words.drop_last(), ts).len() == prune_recs(
            recs.drop_last(),
            ts,
        ).len());
        assert(prune_recs(recs, ts)[a] == prune_recs(recs.drop_last(), ts)[a]);
        assert(prune_words(recs, words, ts)[a] == prune_words(
            recs.drop_last(),
            words.drop_last(),
            ts,
        )[a]);
    }
}

/// After the step phase, the pair found for each document's URI carries
/// that document.
pub proof fn lemma_steps_compat(s: StoreModel, docs: Seq<DocModel>, ts: i64, k: int)
    requires
        store_wf(s),
        s.next_id + docs.len() <= u64::MAX,
        0 <= k < docs.len(),
        forall|a: int, b: int|
            0 <= a < b < docs.len() ==> (#[trigger] docs[a]).uri != (#[trigger] docs[b]).uri,
    ensures
        ({
            let t = steps(s, docs, ts);
            let i = find_uri(t.recs, docs[k].uri, 0);
            &&& 0 <= i < t.recs.len()
            &&& compat(t.recs[i], t.words[i], docs[k])
            &&& t.recs[i].last_seen_at == ts
        }),
    decreases docs.len(),
{
    broadcast use lemma_find_uri;

    lemma_steps_wf(s, docs.drop_last(), ts);
    let t0 = steps(s, docs.drop_last(), ts);
    let d = docs.last();
    let t = steps(s, docs, ts);
    let f = find_uri(t0.recs, d.uri, 0);
    if k == docs.len() - 1 {
        if fast_path(t0, d) {
            assert(t.recs[f] == touched(t0.recs[f], ts));
            assert(t.words == t0.words);
            assert(compat(t.recs[f], t.words[f], d));
            let i = find_uri(t.recs, d.uri, 0);
            if i < f {
                assert(t.recs[i].uri == t0.recs[i].uri);
                assert(t0.recs[i].uri != d.uri);
                assert(false);
            }
            if i > f {
                assert(t.recs[f].uri == d.uri);
                assert(false);
            }
        } else if f < t0.recs.len() {
            assert(t.recs[f] == written_rec(d, t0.recs[f].id, ts));
            assert(t.words[f] == written_word(d, t0.recs[f].id));
            assert(rec_strip(t.recs[f]) =~= rec_strip(written_rec(d, t.recs[f].id, 0)));
            assert(compat(t.recs[f], t.words[f], d));
            let i = find_uri(t.recs, d.uri, 0);
            if i < f {
                assert(t.recs[i].uri == t0.recs[i].uri);
                assert(t0.recs[i].uri != d.uri);
                assert(false);
            }
            if i > f {
                assert(t.recs[f].uri == d.uri);
                assert(false);
            }
        } else {
            // a fresh URI: the pair is appended
            let n0 = t0.recs.len() as int;
            assert(t.recs[n0] == written_rec(d, t0.next_id, ts));
            assert(t.words[n0] == written_word(d, t0.next_id));
            assert(rec_strip(t.recs[n0]) =~= rec_strip(written_rec(d, t.recs[n0].id, 0)));
            assert(compat(t.recs[n0], t.words[n0], d));
            let i = find_uri(t.recs, d.uri, 0);
            if i < n0 {
                assert(t.recs[i].uri == t0.recs[i].uri);
                assert(t0.recs[i].uri != d.uri);
                assert(false);
            }
            if i > n0 {
                assert(t.recs[n0].uri == d.uri);
                assert(false);
            }
        }
    } else {
        assert forall|a: int, b: int|
            0 <= a < b < docs.drop_last().len() implies (#[trigger] docs.drop_last()[a]).uri
            != (#[trigger] docs.drop_last()[b]).uri by {
            assert(docs[a].uri != docs[b].uri);
        }
        lemma_steps_compat(s, docs.drop_last(), ts, k);
        let u = docs[k].uri;
        let i0 = find_uri(t0.recs, u, 0);
        assert(docs.drop_last()[k] == docs[k]);
        assert(d.uri != u);
        // the last step leaves the pair for u in place
        if fast_path(t0, d) || f < t0.recs.len() {
            assert(t0.recs[f].uri == d.uri);
            assert(f != i0);
            assert(t.recs[i0] == t0.recs[i0]);
            assert(t.words[i0] == t0.words[i0]);
        } else {
            assert(t.recs[i0] == t0.recs[i0]);
            assert(t.words[i0] == t0.words[i0]);
        }
        let i = find_uri(t.recs, u, 0);
        assert(t.recs[i0].uri == u);
        if i < i0 {
            if fast_path(t0, d) || f < t0.recs.len() {
                if i == f {
                    assert(t.recs[i].uri == d.uri);
                    assert(false);
                } else {
                    assert(t.recs[i].uri == t0.recs[i].uri);
                    assert(t0.recs[i].uri != u);
                    assert(false);
                }
            } else {
                assert(t.recs[i].uri == t0.recs[i].uri);
                assert(t0.recs[i].uri != u);
                assert(false);
            }
        }
        if i > i0 {
            assert(false);
        }
    }
}

/// After a whole refresh cycle, the pair found for each document's URI
/// carries that document and is stamped with the cycle.
pub proof fn lemma_refresh_compat(s: StoreModel, docs: Seq<DocModel>, ts: i64, k: int)
    requires
        store_wf(s),
        s.next_id + docs.len() <= u64::MAX,
        forall|i: int| 0 <= i < s.recs.len() ==> (#[trigger] s.recs[i]).last_seen_at < ts,
        0 <= k < docs.len(),
        forall|a: int, b: int|
            0 <= a < b < docs.len() ==> (#[trigger] docs[a]).uri != (#[trigger] docs[b]).uri,
    ensures
        ({
            let f1 = refresh_spec(s, docs, ts);
            let i = find_uri(f1.recs, docs[k].uri, 0);
            &&& 0 <= i < f1.recs.len()
            &&& compat(f1.recs[i], f1.words[i], docs[k])
            &&& f1.recs[i].last_seen_at == ts
        }),
{
    broadcast use lemma_find_uri;

    lemma_steps_compat(s, docs, ts, k);
    lemma_steps_wf(s, docs, ts);
    let t = steps(s, docs, ts);
    let u = docs[k].uri;
    let it = find_uri(t.recs, u, 0);
    lemma_prune_complete(t.recs, t.words, ts, it);
    lemma_prune_pointwise(t.recs, t.words, ts);
    lemma_prune_wf(t, ts);
    let f1 = refresh_spec(s, docs, ts);
    let a = prune_dst(t.recs, ts, it);
    assert(f1.recs[a] == t.recs[it]);
    assert(f1.words[a] == t.words[it]);
    let i = find_uri(f1.recs, u, 0);
    assert(f1.recs[a].uri == u);
    if i < a {
        assert(f1.recs[i].uri != u);
        assert(false);
    }
    if i > a {
        assert(false);
    }
}

/// Replaying the same enumeration against a store whose pairs already
/// carry it rewrites everything in place: only cycle stamps change.
pub proof fn lemma_replay(f1: StoreModel, docs: Seq<DocModel>, t2: i64, m: int)
    requires
        store_wf(f1),
        f1.next_id + docs.len() <= u64::MAX,
        0 <= m <= docs.len(),
        forall|a: int, b: int|
            0 <= a < b < docs.len() ==> (#[trigger] docs[a]).uri != (#[trigger] docs[b]).uri,
        forall|k: int|
            0 <= k < docs.len() ==> ({
                let i = find_uri(f1.recs, (#[trigger] docs[k]).uri, 0);
                &&& 0 <= i < f1.recs.len()
                &&& compat(f1.recs[i], f1.words[i], docs[k])
            }),
    ensures
        ({
            let t = steps(f1, docs.take(m), t2);
            &&& t.recs.len() == f1.recs.len()
            &&& t.next_id == f1.next_id
            &&& t.words == f1.words
            &&& forall|i: int|
                0 <= i < f1.recs.len() ==> rec_strip(#[trigger] t.recs[i]) == rec_strip(
                    f1.recs[i],
                )
        }),
    decreases m,
{
    broadcast use lemma_find_uri;

    if m > 0 {
        lemma_replay(f1, docs, t2, m - 1);
        let t0 = steps(f1, docs.take(m - 1), t2);
        let d = docs[m - 1];
        assert(docs.take(m).drop_last() =~= docs.take(m - 1));
        assert(docs.take(m).last() == d);
        let t = steps(f1, docs.take(m), t2);
        assert(t == step(t0, d, t2));
        let i1 = find_uri(f1.recs, d.uri, 0);
        let i0 = find_uri(t0.recs, d.uri, 0);
        // the same pair is found in both stores
        assert(t0.recs[i1].uri == f1.recs[i1].uri);
        assert(t0.recs[i1].uri == d.uri);
        if i0 < i1 {
            assert(rec_strip(t0.recs[i0]) == rec_strip(f1.recs[i0]));
            assert(f1.recs[i0].uri != d.uri);
            assert(t0.recs[i0].uri == f1.recs[i0].uri);
            assert(false);
        }
        if i0 > i1 {
            assert(false);
        }
        assert(compat(f1.recs[i1], f1.words[i1], d));
        assert(rec_strip(t0.recs[i1]) == rec_strip(f1.recs[i1]));
        assert(t0.recs[i1].modified == f1.recs[i1].modified);
        assert(t0.recs[i1].id == f1.recs[i1].id);
        if fast_path(t0, d) {
            assert(t.recs[i1] == touched(t0.recs[i1], t2));
            assert(rec_strip(t.recs[i1]) =~= rec_strip(t0.recs[i1]));
            assert forall|i: int|
                0 <= i < f1.recs.len() implies rec_strip(#[trigger] t.recs[i]) == rec_strip(
                f1.recs[i],
            ) by {
                if i != i1 {
                    assert(t.recs[i] == t0.recs[i]);
                }
            }
        } else {
            // the cheap check fails on an unchanged pair only when the pair
            // already holds exactly what this write produces
            assert(!(d.modified is Some && f1.recs[i1].modified is Some
                && f1.recs[i1].modified->0 >= d.modified->0));
            assert(rec_strip(f1.recs[i1]) == rec_strip(written_rec(d, f1.recs[i1].id, 0)));
            assert(f1.words[i1] == written_word(d, f1.recs[i1].id));
            assert(t.recs[i1] == written_rec(d, t0.recs[i1].id, t2));
            assert(rec_strip(t.recs[i1]) =~= rec_strip(written_rec(d, f1.recs[i1].id, 0)));
            assert forall|i: int|
                0 <= i < f1.recs.len() implies rec_strip(#[trigger] t.recs[i]) == rec_strip(
                f1.recs[i],
            ) by {
                if i != i1 {
                    assert(t.recs[i] == t0.recs[i]);
                }
            }
            assert(t.words =~= t0.words.update(i1, written_word(d, t0.recs[i1].id)));
            assert(t0.words == f1.words);
            assert(t.words =~= f1.words);
        }
    } else {
        assert(docs.take(0) =~= Seq::<DocModel>::empty());
    }
}

} // verus!

verus! {

/// Two stores that differ only in cycle stamps, with the same projection
/// rows, answer a field pass identically.
pub proof fn lemma_hits_congruent(
    recs1: Seq<RecModel>,
    recs2: Seq<RecModel>,
    words: Seq<WordModel>,
    q: Seq<char>,
    in_title: bool,
)
    requires
        recs1.len() == recs2.len(),
        forall|i: int|
            0 <= i < recs1.len() ==> rec_strip(#[trigger] recs1[i]) == rec_strip(recs2[i]),
    ensures
        hits(recs1, words, q, in_title) == hits(recs2, words, q, in_title),
    decreases recs1.len(),
{
    if recs1.len() > 0 && words.len() >= recs1.len() {
        lemma_hits_congruent(recs1.drop_last(), recs2.drop_last(), words.drop_last(), q, in_title);
        assert(rec_strip(recs1[recs1.len() - 1]) == rec_strip(recs2[recs2.len() - 1]));
        assert(entry_of(recs1.last()) =~= entry_of(recs2.last()));
    }
}

/// Idempotence: refreshing twice against the same enumeration, with no
/// change in between, leaves the same document count and the same answer
/// to every query; only the cycle stamps differ.
pub proof fn lemma_refresh_idempotent(
    s: StoreModel,
    docs: Seq<DocModel>,
    t1: i64,
    t2: i64,
    q: Seq<char>,
)
    requires
        store_wf(s),
        s.next_id + docs.len() + docs.len() <= u64::MAX,
        forall|i: int| 0 <= i < s.recs.len() ==> (#[trigger] s.recs[i]).last_seen_at < t1,
        t1 < t2,
        forall|a: int, b: int|
            0 <= a < b < docs.len() ==> (#[trigger] docs[a]).uri != (#[trigger] docs[b]).uri,
    ensures
        ({
            let f1 = refresh_spec(s, docs, t1);
            let f2 = refresh_spec(f1, docs, t2);
            &&& f2.recs.len() == f1.recs.len()
            &&& f2.words == f1.words
            &&& f2.next_id == f1.next_id
            &&& forall|i: int|
                0 <= i < f1.recs.len() ==> rec_strip(#[trigger] f2.recs[i]) == rec_strip(
                    f1.recs[i],
                )
            &&& search_spec(f2, q) == search_spec(f1, q)
        }),
{
    broadcast use lemma_find_uri;

    let f1 = refresh_spec(s, docs, t1);
    lemma_steps_wf(s, docs, t1);
    let t = steps(s, docs, t1);
    lemma_prune_wf(t, t1);
    lemma_prune_pointwise(t.recs, t.words, t1);
    lemma_steps_stamp(s, docs, t1);
    // every surviving record is stamped with the first cycle and carries a
    // URI of the enumeration
    assert forall|i: int| 0 <= i < f1.recs.len() implies (#[trigger] f1.recs[i]).last_seen_at < t2
        && doc_uris_contain(docs, f1.recs[i].uri) by {
        let ka = prune_src(t.recs, t1, i);
        assert(t.recs[ka].last_seen_at >= t1);
        assert(t.recs[ka].last_seen_at == t1);
        assert(doc_uris_contain(docs, t.recs[ka].uri));
    }
    assert forall|k: int| 0 <= k < docs.len() implies ({
        let i = find_uri(f1.recs, (#[trigger] docs[k]).uri, 0);
        &&& 0 <= i < f1.recs.len()
        &&& compat(f1.recs[i], f1.words[i], docs[k])
    }) by {
        lemma_refresh_compat(s, docs, t1, k);
    }
    lemma_replay(f1, docs, t2, docs.len() as int);
    assert(docs.take(docs.len() as int) =~= docs);
    let t2s = steps(f1, docs, t2);
    lemma_steps_stamp(f1, docs, t2);
    lemma_steps_wf(f1, docs, t2);
    assert forall|i: int| 0 <= i < t2s.recs.len() implies (#[trigger] t2s.recs[i]).last_seen_at
        >= t2 by {
        assert(rec_strip(t2s.recs[i]) == rec_strip(f1.recs[i]));
        assert(t2s.recs[i].uri == f1.recs[i].uri);
        assert(doc_uris_contain(docs, t2s.recs[i].uri));
    }
    lemma_prune_identity(t2s.recs, t2s.words, t2);
    let f2 = refresh_spec(f1, docs, t2);
    assert(f2.recs == t2s.recs);
    assert(f2.words == f1.words);
    // searching cannot see the cycle stamps
    lemma_hits_congruent(f2.recs, f1.recs, f2.words, q, true);
    lemma_hits_congruent(f2.recs, f1.recs, f2.words, q, false);
}

} // verus!

verus! {

/// Records whose URI no document carries are left exactly as they were by
/// the step phase, and no record ends up holding their URI that did not
/// hold it before.
pub proof fn lemma_steps_untouched(s: StoreModel, docs: Seq<DocModel>, ts: i64, u: Seq<char>)
    requires
        store_wf(s),
        s.next_id + docs.len() <= u64::MAX,
        forall|k: int| 0 <= k < docs.len() ==> (#[trigger] docs[k]).uri != u,
    ensures
        ({
            let t = steps(s, docs, ts);
            &&& forall|i: int|
                0 <= i < s.recs.len() && (#[trigger] s.recs[i]).uri == u ==> t.recs[i]
                    == s.recs[i] && t.words[i] == s.words[i]
            &&& forall|i: int|
                0 <= i < s.recs.len() && (#[trigger] s.recs[i]).uri != u ==> t.recs[i].uri != u
            &&& forall|i: int|
                s.recs.len() <= i < t.recs.len() ==> (#[trigger] t.recs[i]).uri != u
        }),
    decreases docs.len(),
{
    broadcast use lemma_find_uri;

    if docs.len() > 0 {
        assert forall|k: int|
            0 <= k < docs.drop_last().len() implies (#[trigger] docs.drop_last()[k]).uri != u by {
            assert(docs[k].uri != u);
        }
        lemma_steps_untouched(s, docs.drop_last(), ts, u);
        lemma_steps_wf(s, docs.drop_last(), ts);
        let t0 = steps(s, docs.drop_last(), ts);
        let d = docs.last();
        let t = steps(s, docs, ts);
        let f = find_uri(t0.recs, d.uri, 0);
        assert(d.uri != u);
        assert forall|i: int|
            0 <= i < s.recs.len() && (#[trigger] s.recs[i]).uri == u implies t.recs[i]
            == s.recs[i] && t.words[i] == s.words[i] by {
            assert(t0.recs[i] == s.recs[i]);
            assert(t0.words[i] == s.words[i]);
            if f < t0.recs.len() {
                assert(t0.recs[f].uri == d.uri);
                assert(t0.recs[i].uri == u);
                assert(f != i);
            }
        }
        assert forall|i: int|
            0 <= i < s.recs.len() && (#[trigger] s.recs[i]).uri != u implies t.recs[i].uri
            != u by {
            assert(t0.recs[i].uri != u);
            if f < t0.recs.len() && i == f {
                assert(t.recs[i].uri == d.uri || t.recs[i] == touched(t0.recs[f], ts));
            }
        }
        assert forall|i: int|
            s.recs.len() <= i < t.recs.len() implies (#[trigger] t.recs[i]).uri != u by {
            if i < t0.recs.len() {
                assert(t0.recs[i].uri != u);
                if f < t0.recs.len() && i == f {
                    assert(t.recs[i].uri == d.uri || t.recs[i] == touched(t0.recs[f], ts));
                }
            } else {
                assert(t.recs[i].uri == d.uri);
            }
        }
    }
}

/// After the step phase, a document the store did not already hold at
/// least as new has its record and projection row written outright: the
/// cheap unchanged path cannot apply.
pub proof fn lemma_steps_written(s: StoreModel, docs: Seq<DocModel>, ts: i64, k: int)
    requires
        store_wf(s),
        s.next_id + docs.len() <= u64::MAX,
        0 <= k < docs.len(),
        forall|a: int, b: int|
            0 <= a < b < docs.len() ==> (#[trigger] docs[a]).uri != (#[trigger] docs[b]).uri,
        forall|i: int|
            0 <= i < s.recs.len() && (#[trigger] s.recs[i]).uri == docs[k].uri ==> !(docs[k].modified is Some
                && s.recs[i].modified is Some && s.recs[i].modified->0 >= docs[k].modified->0),
    ensures
        ({
            let t = steps(s, docs, ts);
            let i = find_uri(t.recs, docs[k].uri, 0);
            &&& 0 <= i < t.recs.len()
            &&& t.recs[i] == written_rec(docs[k], t.recs[i].id, ts)
            &&& t.words[i] == written_word(docs[k], t.recs[i].id)
        }),
    decreases docs.len(),
{
    broadcast use lemma_find_uri;

    lemma_steps_wf(s, docs.drop_last(), ts);
    let t0 = steps(s, docs.drop_last(), ts);
    let d = docs.last();
    let t = steps(s, docs, ts);
    let f = find_uri(t0.recs, d.uri, 0);
    assert forall|a: int, b: int|
        0 <= a < b < docs.drop_last().len() implies (#[trigger] docs.drop_last()[a]).uri
        != (#[trigger] docs.drop_last()[b]).uri by {
        assert(docs[a].uri != docs[b].uri);
    }
    if k == docs.len() - 1 {
        lemma_steps_untouched(s, docs.drop_last(), ts, d.uri);
        if fast_path(t0, d) {
            // the record found for d can only be a source record with d's
            // URI, unchanged by the earlier steps; the premise refutes the
            // newness check on it
            assert(t0.recs[f].uri == d.uri);
            assert(f < s.recs.len());
            assert(s.recs[f].uri == d.uri);
            assert(t0.recs[f] == s.recs[f]);
            assert(false);
        } else if f < t0.recs.len() {
            let i = find_uri(t.recs, d.uri, 0);
            assert(t.recs[f] == written_rec(d, t0.recs[f].id, ts));
            assert(t.words[f] == written_word(d, t0.recs[f].id));
            if i < f {
                assert(t.recs[i].uri == t0.recs[i].uri);
                assert(t0.recs[i].uri != d.uri);
                assert(false);
            }
            if i > f {
                assert(t.recs[f].uri == d.uri);
                assert(false);
            }
        } else {
            let n0 = t0.recs.len() as int;
            let i = find_uri(t.recs, d.uri, 0);
            assert(t.recs[n0] == written_rec(d, t0.next_id, ts));
            assert(t.words[n0] == written_word(d, t0.next_id));
            if i < n0 {
                assert(t.recs[i].uri == t0.recs[i].uri);
                assert(t0.recs[i].uri != d.uri);
                assert(false);
            }
            if i > n0 {
                assert(t.recs[n0].uri == d.uri);
                assert(false);
            }
        }
    } else {
        lemma_steps_written(s, docs.drop_last(), ts, k);
        let u = docs[k].uri;
        let i0 = find_uri(t0.recs, u, 0);
        assert(docs.drop_last()[k] == docs[k]);
        assert(d.uri != u);
        if fast_path(t0, d) || f < t0.recs.len() {
            assert(t0.recs[f].uri == d.uri);
            assert(f != i0);
            assert(t.recs[i0] == t0.recs[i0]);
            assert(t.words[i0] == t0.words[i0]);
        } else {
            assert(t.recs[i0] == t0.recs[i0]);
            assert(t.words[i0] == t0.words[i0]);
        }
        let i = find_uri(t.recs, u, 0);
        assert(t.recs[i0].uri == u);
        if i < i0 {
            if (fast_path(t0, d) || f < t0.recs.len()) && i == f {
                assert(t.recs[i].uri == d.uri);
                assert(false);
            } else {
                assert(t.recs[i].uri == t0.recs[i].uri);
                assert(t0.recs[i].uri != u);
                assert(false);
            }
        }
        if i > i0 {
            assert(false);
        }
    }
}

/// Update semantics, the content side: a document the store holds only in
/// an older state leaves the cycle with its record and searchable row
/// holding exactly the new content, so queries from then on see the new
/// text and not the old.
pub proof fn lemma_update_visibility(s: StoreModel, docs: Seq<DocModel>, ts: i64, k: int)
    requires
        store_wf(s),
        s.next_id + docs.len() <= u64::MAX,
        forall|i: int| 0 <= i < s.recs.len() ==> (#[trigger] s.recs[i]).last_seen_at < ts,
        0 <= k < docs.len(),
        forall|a: int, b: int|
            0 <= a < b < docs.len() ==> (#[trigger] docs[a]).uri != (#[trigger] docs[b]).uri,
        forall|i: int|
            0 <= i < s.recs.len() && (#[trigger] s.recs[i]).uri == docs[k].uri ==> !(docs[k].modified is Some
                && s.recs[i].modified is Some && s.recs[i].modified->0 >= docs[k].modified->0),
    ensures
        ({
            let f1 = refresh_spec(s, docs, ts);
            let i = find_uri(f1.recs, docs[k].uri, 0);
            &&& 0 <= i < f1.recs.len()
            &&& f1.recs[i] == written_rec(docs[k], f1.recs[i].id, ts)
            &&& f1.words[i] == written_word(docs[k], f1.recs[i].id)
        }),
{
    broadcast use lemma_find_uri;

    lemma_steps_written(s, docs, ts, k);
    lemma_steps_wf(s, docs, ts);
    let t = steps(s, docs, ts);
    let u = docs[k].uri;
    let it = find_uri(t.recs, u, 0);
    lemma_prune_complete(t.recs, t.words, ts, it);
    lemma_prune_pointwise(t.recs, t.words, ts);
    lemma_prune_wf(t, ts);
    let f1 = refresh_spec(s, docs, ts);
    let a = prune_dst(t.recs, ts, it);
    assert(f1.recs[a] == t.recs[it]);
    assert(f1.words[a] == t.words[it]);
    let i = find_uri(f1.recs, u, 0);
    assert(f1.recs[a].uri == u);
    if i < a {
        assert(f1.recs[i].uri != u);
        assert(false);
    }
    if i > a {
        assert(false);
    }
}

} // verus!
