use markdown_db::index::IndexStore;
use markdown_db::markdown::Document;
use markdown_db::uris::file_uri;

fn file_doc(path: &str, modified: i64, content: &str) -> Document {
    let stem = match path.rfind('/') {
        Some(i) => &path[i + 1..],
        None => path,
    };
    let stem = stem.strip_suffix(".md").unwrap_or(stem);
    Document::from_text(
        file_uri(path),
        Some(stem.to_string()),
        Some(modified),
        Some(modified),
        content,
    )
    .unwrap()
}

#[test]
fn refresh_index_tests() {
    let mut index = IndexStore::new();

    assert_eq!(0, index.size());

    index.refresh(&vec![file_doc("document.md", 1, "Initial document")], 10);

    assert_eq!(1, index.size());
    assert_eq!(1, index.search("Initial").len(), "indexed document should be found");
    assert_eq!(0, index.search("Unknown").len(), "unknown document should not be found");

    index.refresh(&vec![file_doc("document.md", 15, "Updated document")], 20);

    assert_eq!(1, index.size());
    assert_eq!(0, index.search("Initial").len(), "original version should not be found");
    assert_eq!(1, index.search("Updated").len(), "updated version should be found");

    index.refresh(&vec![], 30);

    assert_eq!(0, index.size());
    assert_eq!(0, index.search("Updated").len(), "updated version should no longer be found");

    index.refresh(
        &vec![
            file_doc("one.md", 31, "One"),
            file_doc("two.md", 31, "Two"),
            file_doc("three.md", 31, "Three"),
        ],
        40,
    );

    assert_eq!(3, index.size());
    assert_eq!(1, index.search("One").len(), "all documents should be searchable");
    assert_eq!(1, index.search("Two").len(), "all documents should be searchable");
    assert_eq!(1, index.search("Three").len(), "all documents should be searchable");
}

#[test]
fn search_result_tests() {
    let mut index = IndexStore::new();

    index.refresh(
        &vec![file_doc("root.md", 1, "Root"), file_doc("folder/child.md", 1, "Child")],
        10,
    );

    assert_eq!(file_uri("root.md"), index.search("Root").entries()[0].uri());
    assert_eq!(file_uri("folder/child.md"), index.search("Child").entries()[0].uri());
}

#[test]
fn search_document_tests() {
    let mut index = IndexStore::new();

    index.refresh(&vec![file_doc("plain.md", 1, "Very SIMPLE document")], 10);

    for query in ["very", "VeRy", "simple", "SIMPLE", "document"] {
        let results = index.search(query);
        assert_eq!(1, results.len(), "match word");
    }

    for query in ["simple document", "very simple", "document simple very"] {
        let results = index.search(query);
        assert_eq!(1, results.len(), "match multiple words");
    }

    for query in ["missing", "simple missing document", "very simple missing"] {
        let results = index.search(query);
        assert_eq!(0, results.len(), "don't match missing word");
    }

    for query in ["v", "si", "doc"] {
        let results = index.search(query);
        assert_eq!(1, results.len(), "match word prefixes ({query})");
    }
}

#[test]
fn search_inline_tags_tests() {
    let mut index = IndexStore::new();

    index.refresh(&vec![file_doc("doc.md", 1, "Document with #inline tags #after")], 10);

    for query in ["#inline", "#after"] {
        let results = index.search(query);
        assert_eq!(1, results.len(), "match qualified tags");
    }

    for query in ["inline", "after"] {
        let results = index.search(query);
        assert_eq!(0, results.len(), "don't match unqualified tag");
    }
}

#[test]
fn search_front_matter_tags_tests() {
    let mut index = IndexStore::new();

    let content = "---\ntags: first, second\n---\nDocument with front matter tags\n";

    index.refresh(&vec![file_doc("doc.md", 1, content)], 10);

    for query in ["#first", "#second"] {
        let results = index.search(query);
        assert_eq!(1, results.len(), "match qualified tags");
    }

    for query in ["first", "second"] {
        let results = index.search(query);
        assert_eq!(0, results.len(), "don't match unqualified tag");
    }
}

#[test]
fn search_title_from_file_tests() {
    let mut index = IndexStore::new();

    index.refresh(
        &vec![
            file_doc("first.md", 1, ""),
            file_doc("folder/second.md", 1, ""),
            file_doc("folder/third.md", 1, "third"),
        ],
        10,
    );

    let results = index.search("first");
    assert_eq!(1, results.len());
    assert_eq!(file_uri("first.md"), results.entries()[0].uri(), "file name");

    let results = index.search("second");
    assert_eq!(1, results.len());
    assert_eq!(file_uri("folder/second.md"), results.entries()[0].uri(), "nested file name");

    let results = index.search("third");
    assert_eq!(1, results.len(), "matching both title and text should only return one result");
}

#[test]
fn refresh_twice_unchanged() {
    let mut index = IndexStore::new();

    let docs =
        vec![file_doc("a.md", 1, "alpha words here"), file_doc("b.md", 1, "beta words here")];
    index.refresh(&docs, 10);
    let count_before = index.size();
    let alpha_before = index.search("alpha").len();
    let words_before = index.search("words").len();

    let docs =
        vec![file_doc("a.md", 1, "alpha words here"), file_doc("b.md", 1, "beta words here")];
    index.refresh(&docs, 20);

    assert_eq!(count_before, index.size());
    assert_eq!(alpha_before, index.search("alpha").len());
    assert_eq!(words_before, index.search("words").len());
}

#[test]
fn empty_vault() {
    let mut index = IndexStore::new();
    index.refresh(&vec![], 10);

    assert_eq!(0, index.size());
    assert_eq!(0, index.search("anything").len());
    assert_eq!(0, index.search("a").len());
}

#[test]
fn entry_fields() {
    let mut index = IndexStore::new();
    let content = "---\ntype: note\n---\nSome body text\n";
    index.refresh(&vec![file_doc("note.md", 1, content)], 10);

    let results = index.search("body");
    assert_eq!(1, results.len());
    let entry = &results.entries()[0];
    assert_eq!("note", entry.title());
    assert_eq!(file_uri("note.md"), entry.uri());
    assert_eq!(Some("note"), entry.doc_type());
    assert_eq!("Some body text\n", entry.markdown());
}

#[test]
fn file_uri_escapes_path() {
    assert_eq!("obsidian://open?path=a%20b", file_uri("a b"));
    assert_eq!("obsidian://open?path=%2Fv%2Fnote.md", file_uri("/v/note.md"));
}
