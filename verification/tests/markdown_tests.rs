use markdown_db::markdown::Document;
use markdown_db::uris::literal_uri;

fn doc(content: &str) -> Document {
    Document::from_text(literal_uri(content), None, None, None, content).unwrap()
}

fn doc_with_title(content: &str, title: &str) -> Document {
    Document::from_text(literal_uri(content), Some(title.to_string()), None, None, content)
        .unwrap()
}

#[test]
fn title_missing() {
    let document = doc("");
    assert_eq!(None, document.title());
}

#[test]
fn title_from_path() {
    let document = doc_with_title("", "title-from-path");
    assert_eq!(Some("title-from-path"), document.title());
}

#[test]
fn title_from_frontmatter() {
    let source = "---\ntitle: Title from frontmatter\n---\n";

    let document = doc(source);
    assert_eq!(
        Some("Title from frontmatter"),
        document.title(),
        "takes title from frontmatter when present"
    );

    let document = doc_with_title(source, "title-from-path");
    assert_eq!(
        Some("Title from frontmatter"),
        document.title(),
        "prefers title from frontmatter to path"
    );
}

#[test]
fn type_missing() {
    let document = doc("");
    assert_eq!(None, document.doc_type());
}

#[test]
fn type_from_frontmatter() {
    let source = "---\ntype: Person\n---\n";

    let document = doc(source);
    assert_eq!(Some("Person".to_string()), document.doc_type());
}

#[test]
fn type_from_link() {
    let source = "[[type=person]]\n";

    let document = doc(source);
    assert_eq!(Some("person".to_string()), document.doc_type());

    let source = "[[type=person|alias]]\n";

    let document = doc(source);
    assert_eq!(Some("person".to_string()), document.doc_type());
}

#[test]
fn text_from_standard_content() {
    assert_eq!("Content", doc("Content\n").text());
}

#[test]
fn text_from_inline_code() {
    assert_eq!("(defn hello)", doc("`(defn hello)`\n").text());
}

#[test]
fn text_from_code_block() {
    assert_eq!("(defn hello)\n", doc("```clojure\n(defn hello)\n```\n").text());
}

#[test]
fn markdown_link() {
    let document = doc("[first](https://example.com/first)\n");

    assert_eq!(1, document.links().len());
    let link = &document.links()[0];
    assert_eq!("first", link.text());
    assert_eq!("https://example.com/first", link.url());
    assert_eq!("", link.title());
}

#[test]
fn auto_link() {
    let document = doc("https://example.com/second\n");

    assert_eq!(1, document.links().len());
    let link = &document.links()[0];
    assert_eq!("https://example.com/second", link.text());
    assert_eq!("https://example.com/second", link.url());
    assert_eq!("", link.title());
}

#[test]
fn wiki_link() {
    let document = doc("[[WikiLink]]\n");

    assert_eq!(1, document.links().len());
    let link = &document.links()[0];
    assert_eq!("WikiLink", link.text());
    assert_eq!("obsidian://open?path=WikiLink", link.url());
    assert_eq!("", link.title());
}

#[test]
fn wiki_link_with_alias() {
    let document = doc("Before [[WikiLink|Alias]] After\n");

    assert_eq!(1, document.links().len());
    let link = &document.links()[0];
    assert_eq!("Alias", link.text());
    assert_eq!("obsidian://open?path=WikiLink", link.url());
    assert_eq!("", link.title());
}

#[test]
fn links() {
    let document = doc(
        "[first](https://example.com/first)\nhttps://example.com/second\n[[WikiLink]]\n[[WikiLinkWithAlias|Alias]]\n",
    );

    assert_eq!(4, document.links().len());
    let links = document.links();

    assert_eq!("first", links[0].text());
    assert_eq!("https://example.com/first", links[0].url());
    assert_eq!("", links[0].title());

    assert_eq!("https://example.com/second", links[1].text());
    assert_eq!("https://example.com/second", links[1].url());
    assert_eq!("", links[1].title());

    assert_eq!("WikiLink", links[2].text());
    assert_eq!("obsidian://open?path=WikiLink", links[2].url());
    assert_eq!("", links[2].title());

    assert_eq!("Alias", links[3].text());
    assert_eq!("obsidian://open?path=WikiLinkWithAlias", links[3].url());
    assert_eq!("", links[3].title());
}

#[test]
fn content() {
    let source = "# Title\n\nContent\n";
    let document = doc(source);

    assert_eq!(source, document.content());
}

#[test]
fn markdown() {
    let document = doc("# Title\n\nContent\n");

    assert_eq!("# Title\n\nContent\n", document.markdown());
}

#[test]
fn removes_front_matter() {
    let document = doc(
        "---\nsome: front_matter\nmore:\n    - front\n    - matter\n---\n# Title\n\nContent\n",
    );

    assert_eq!("# Title\n\nContent\n", document.markdown());
}

#[test]
fn normalizes_wiki_links() {
    let document = doc("# Title\n\n[[Other Page]]\n[[Other Page|Alias]]\n");

    assert_eq!(
        "# Title\n\n[Other Page](obsidian://open?path=Other%20Page)\n[Alias](obsidian://open?path=Other%20Page)\n",
        document.markdown()
    );
}

#[test]
fn malformed_front_matter() {
    let result =
        Document::from_text(String::new(), None, None, None, "---\nno colon here\n---\nBody\n");
    assert!(result.is_err());
}

#[test]
fn literal_source_uri() {
    assert_eq!("data:text/plain;base64,YWJj", literal_uri("abc"));
    assert_eq!("data:text/plain;base64,", literal_uri(""));
}

#[test]
fn heading_levels_round_trip() {
    let document = doc("## Sub\n\nText\n");
    assert_eq!("## Sub\n\nText\n", document.markdown());
    assert_eq!("SubText", document.text());
}

#[test]
fn unclosed_wiki_link_stays_literal() {
    let document = doc("[[NoClose\n");
    assert_eq!(0, document.links().len());
    assert_eq!("[[NoClose", document.text());
}

#[test]
fn unclosed_inline_code_stays_literal() {
    let document = doc("`unclosed\n");
    assert_eq!(0, document.links().len());
    assert_eq!("`unclosed", document.text());
}

#[test]
fn wiki_link_extra_alias_parts() {
    let document = doc("[[A|B|C]]\n");
    assert_eq!(1, document.links().len());
    assert_eq!("B", document.links()[0].text());
    assert_eq!("obsidian://open?path=A", document.links()[0].url());
}

#[test]
fn unclosed_code_fence_runs_to_the_end() {
    let document = doc("```\ncode");
    assert_eq!(0, document.links().len());
    assert_eq!("code\n", document.text());
}
