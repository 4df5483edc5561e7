use rs_core::document_loader::DocumentLoader;

#[test]
fn test_document_queue_fifo() {
    let mut loader = DocumentLoader::new("docs".to_string());
    assert!(loader.next().is_none());

    loader.document("doc1.txt".to_string(), "Content of document 1".to_string());
    loader.document("doc2.txt".to_string(), "Content of document 2".to_string());

    let first = loader.next().unwrap();
    assert_eq!(first.document_name, "doc1.txt");
    assert_eq!(first.document_content, "Content of document 1");

    let second = loader.next().unwrap();
    assert_eq!(second.document_name, "doc2.txt");
    assert_eq!(second.document_content, "Content of document 2");

    assert!(loader.next().is_none());
    assert!(loader.next().is_none());
}

#[test]
fn test_document_identifiers_fresh() {
    let mut loader = DocumentLoader::new("docs".to_string());
    loader.document("a.txt".to_string(), "a".to_string());
    loader.document("b.txt".to_string(), "b".to_string());

    let first = loader.next().unwrap();
    let second = loader.next().unwrap();
    assert_eq!(first.document_id.len(), 36);
    assert_eq!(second.document_id.len(), 36);
    assert_ne!(first.document_id, second.document_id);
}
