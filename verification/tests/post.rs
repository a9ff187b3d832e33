use limonite::post::Post;
use limonite::PipelineError;

#[test]
fn constructs_post_from_filename() {
    let raw = "---\nlayout: post\n---\nMerry Christmas!\n";
    let post = Post::new("fixtures/003/_posts/2015-10-26-001-merry-xmas.markdown", raw).unwrap();
    assert_eq!(post.slug, "merry-xmas");
    assert_eq!(post.date, "2015-10-26".to_owned());
    assert_eq!(post.seq, 1);
}

#[test]
fn reads_title_from_front_matter() {
    let raw = "---\ntitle: wild merry xmas!\n---\nMerry Christmas!\n";
    let post = Post::new("fixtures/005/_posts/2015-10-26-001-merry-xmas.markdown", raw).unwrap();
    assert_eq!(post.title, "wild merry xmas!".to_owned());
}

#[test]
fn title_is_taken_from_slug_if_missing() {
    let raw = "---\n---\nMeh.\n";
    let post = Post::new("fixtures/005/_posts/2015-10-26-002-meh.markdown", raw).unwrap();
    assert_eq!(post.title, "meh".to_owned());
}

#[test]
fn relative_url_is_prefix_and_slug() {
    let raw = "---\n---\nMerry Christmas!\n";
    let post = Post::new("2015-10-26-001-merry-xmas.markdown", raw).unwrap();
    assert_eq!(post.relative_url(), "p/merry-xmas");
    assert_eq!(post.relative_url, "p/merry-xmas");
}

#[test]
fn fname_joins_date_sequence_and_slug() {
    let raw = "---\n---\nMerry Christmas!\n";
    let post = Post::new("2015-10-26-001-merry-xmas.markdown", raw).unwrap();
    assert_eq!(post.fname(), "2015-10-26-1-merry-xmas");
}

#[test]
fn identity_is_independent_of_content() {
    let raw_a = "---\ntitle: one\n---\nalpha\n";
    let raw_b = "---\n---\nbeta\n";
    let a = Post::new("2020-01-02-007-some-slug.md", raw_a).unwrap();
    let b = Post::new("2020-01-02-007-some-slug.md", raw_b).unwrap();
    assert_eq!(a.date, b.date);
    assert_eq!(a.seq, b.seq);
    assert_eq!(a.slug, b.slug);
    assert_eq!(a.date, "2020-01-02");
    assert_eq!(a.seq, 7);
    assert_eq!(a.slug, "some-slug");
}

#[test]
fn rejects_filename_without_sequence_group() {
    let raw = "---\n---\nbody\n";
    let r = Post::new("2015-10-26-merry-xmas.markdown", raw);
    assert_eq!(r.unwrap_err(), PipelineError::InvalidFilename);
}

#[test]
fn rejects_filename_with_letters_in_date() {
    let raw = "---\n---\nbody\n";
    let r = Post::new("2015-1x-26-001-merry-xmas.markdown", raw);
    assert_eq!(r.unwrap_err(), PipelineError::InvalidFilename);
}

#[test]
fn rejects_sequence_group_over_byte_range() {
    let raw = "---\n---\nbody\n";
    let r = Post::new("2015-10-26-999-merry-xmas.markdown", raw);
    assert_eq!(r.unwrap_err(), PipelineError::InvalidFilename);
}

#[test]
fn rejects_filename_with_empty_slug() {
    let raw = "---\n---\nbody\n";
    let r = Post::new("2015-10-26-001-.markdown", raw);
    assert_eq!(r.unwrap_err(), PipelineError::InvalidFilename);
}

#[test]
fn propagates_malformed_document_from_content() {
    let r = Post::new("2015-10-26-001-merry-xmas.markdown", "no front matter here\n");
    assert_eq!(r.unwrap_err(), PipelineError::MalformedDocument);
}

#[test]
fn filename_is_checked_before_content() {
    let r = Post::new("not-a-post.markdown", "no front matter here\n");
    assert_eq!(r.unwrap_err(), PipelineError::InvalidFilename);
}

#[test]
fn content_is_rendered_markdown() {
    let raw = "---\n---\nMerry *Christmas*!\n";
    let post = Post::new("2015-10-26-001-merry-xmas.markdown", raw).unwrap();
    assert_eq!(post.content, "<p>Merry <em>Christmas</em>!</p>\n");
}

#[test]
fn sequence_bound_255_is_accepted() {
    let raw = "---\n---\nbody\n";
    let post = Post::new("2015-10-26-255-top.md", raw).unwrap();
    assert_eq!(post.seq, 255);
    assert_eq!(post.fname(), "2015-10-26-255-top");
}

#[test]
fn fname_renders_sequence_without_leading_zeros() {
    let raw = "---\n---\nbody\n";
    let zero = Post::new("2015-10-26-000-a.md", raw).unwrap();
    assert_eq!(zero.fname(), "2015-10-26-0-a");
    let ten = Post::new("2015-10-26-010-b.md", raw).unwrap();
    assert_eq!(ten.fname(), "2015-10-26-10-b");
}

#[test]
fn path_without_directories_is_accepted() {
    let raw = "---\n---\nbody\n";
    let post = Post::new("2015-10-26-001-bare", raw).unwrap();
    assert_eq!(post.slug, "bare");
}
