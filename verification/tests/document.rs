use limonite::document::Document;

#[test]
fn document_keeps_its_source_path() {
    let document = Document::new("fixtures/012/index.html").unwrap();
    assert_eq!(document.src_path().as_str(), "fixtures/012/index.html");
}
