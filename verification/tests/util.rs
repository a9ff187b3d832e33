use limonite::util::{parse_front_matter_and_content, render_markdown, split_front_matter};
use limonite::PipelineError;

#[test]
fn parses_the_file() {
    let raw = "---\nlayout: main\n---\nHello {{ content }}\n";
    let (front_matter, content) = parse_front_matter_and_content(raw).unwrap();
    assert_eq!(front_matter.get("layout").unwrap().as_str(), "main");
    assert_eq!(content, "Hello {{ content }}\n");
}

#[test]
fn splitting_keeps_metadata_and_body_apart() {
    let raw = "intro\n---\n  title: x  \n---\nrest of the file";
    let (meta, body) = split_front_matter(raw).unwrap();
    assert_eq!(meta, "title: x");
    assert_eq!(body, "rest of the file");
}

#[test]
fn splitting_reconstructs_the_original_structure() {
    let raw = "pre\n---\nmeta\n---\nbody";
    let (meta, body) = split_front_matter(raw).unwrap();
    let rebuilt = format!("pre\n---\n{}\n---\n{}", meta, body);
    assert_eq!(rebuilt, raw);
}

#[test]
fn empty_metadata_block_is_valid() {
    let (meta, body) = split_front_matter("---\n---\nbody\n").unwrap();
    assert_eq!(meta, "");
    assert_eq!(body, "body\n");
}

#[test]
fn splitting_fails_without_delimiters() {
    let r = split_front_matter("just text\n");
    assert_eq!(r.unwrap_err(), PipelineError::MalformedDocument);
}

#[test]
fn splitting_fails_with_one_delimiter() {
    let r = split_front_matter("---\nonly one\n");
    assert_eq!(r.unwrap_err(), PipelineError::MalformedDocument);
}

#[test]
fn splitting_fails_with_three_delimiters() {
    let r = split_front_matter("---\na\n---\nb\n---\nc\n");
    assert_eq!(r.unwrap_err(), PipelineError::MalformedDocument);
}

#[test]
fn unrecognized_keys_yield_empty_front_matter() {
    let raw = "---\nfoo: bar\nbaz: 12\n---\nbody\n";
    let (front_matter, _) = parse_front_matter_and_content(raw).unwrap();
    assert!(front_matter.get("layout").is_none());
    assert!(front_matter.get("title").is_none());
    assert!(front_matter.get("foo").is_none());
}

#[test]
fn non_string_values_are_treated_as_absent() {
    let raw = "---\ntitle: [1, 2]\nlayout: 7\n---\nbody\n";
    let (front_matter, _) = parse_front_matter_and_content(raw).unwrap();
    assert!(front_matter.get("layout").is_none());
    assert!(front_matter.get("title").is_none());
}

#[test]
fn unparsable_metadata_degrades_to_empty_front_matter() {
    let raw = "---\n\t{ not: yaml: at: all\n---\nbody\n";
    let (front_matter, body) = parse_front_matter_and_content(raw).unwrap();
    assert!(front_matter.get("layout").is_none());
    assert!(front_matter.get("title").is_none());
    assert_eq!(body, "body\n");
}

#[test]
fn both_recognized_keys_are_decoded() {
    let raw = "---\nlayout: post\ntitle: A Day\nother: ignored\n---\nbody\n";
    let (front_matter, _) = parse_front_matter_and_content(raw).unwrap();
    assert_eq!(front_matter.get("layout").unwrap().as_str(), "post");
    assert_eq!(front_matter.get("title").unwrap().as_str(), "A Day");
}

#[test]
fn renders_markdown_paragraph() {
    assert_eq!(render_markdown("x"), "<p>x</p>\n");
}

#[test]
fn renders_markdown_heading() {
    assert_eq!(render_markdown("# Hi"), "<h1>Hi</h1>\n");
}
