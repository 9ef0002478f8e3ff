use markdown_db::frontmatter::FrontMatter;

#[test]
fn tags_inline_array() {
    let front_matter = FrontMatter::parse("tags: [tag1, tag2]\nanything: else\n").unwrap();

    assert!(front_matter.tags().is_some());
    assert_eq!(["tag1", "tag2"], front_matter.tags().unwrap()[..]);
}

#[test]
fn tags_indented_array() {
    let front_matter =
        FrontMatter::parse("tags:\n    - tag1\n    - tag2\nanything: else\n").unwrap();

    assert!(front_matter.tags().is_some());
    assert_eq!(["tag1", "tag2"], front_matter.tags().unwrap()[..]);
}

#[test]
fn tags_string() {
    let front_matter = FrontMatter::parse("tags: tag1, tag2\nanything: else\n").unwrap();

    assert!(front_matter.tags().is_some());
    assert_eq!(["tag1", "tag2"], front_matter.tags().unwrap()[..]);
}

#[test]
fn empty_tags() {
    let front_matter = FrontMatter::parse("tags:\nanything: else\n").unwrap();

    assert!(front_matter.tags().is_none());
}

#[test]
fn no_tags() {
    let front_matter = FrontMatter::parse("anything: else\n").unwrap();

    assert!(front_matter.tags().is_none());
}

#[test]
fn title_and_type_fields() {
    let front_matter = FrontMatter::parse("title: A name\ntype: note\n").unwrap();
    assert_eq!(Some("A name"), front_matter.title());
    assert_eq!(Some("note"), front_matter.doc_type());
}

#[test]
fn malformed_line_is_an_error() {
    assert!(FrontMatter::parse("just words without a separator\n").is_err());
    assert!(FrontMatter::parse("  indented but no dash\n").is_err());
}
