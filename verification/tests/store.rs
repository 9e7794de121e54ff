use librarian::chunker::{chunk_text, ChunkConfig};
use librarian::store::{IngestOutcome, Library};
use librarian::study::StudyItemKind;

#[test]
fn reingesting_same_source_is_a_no_op() {
    let mut lib = Library::new();
    let cfg = ChunkConfig {
        chunk_size: 50,
        overlap: 10,
    };
    let text = "one two three four five six seven eight nine ten. ".repeat(5);
    let first = lib.ingest_document("/tmp/notes.txt", "notes.txt", "text", &text, None, &cfg, 1000);
    assert_eq!(first, IngestOutcome::Added);
    let docs = lib.document_count();
    let chunks = lib.chunk_count();
    assert_eq!(docs, 1);
    assert!(chunks >= 2);

    // exactly the emitted chunks were stored, in order, under dense ordinals
    let emitted = chunk_text(&text, &cfg);
    let stored = lib.all_chunks();
    assert_eq!(stored.len(), emitted.len());
    for (k, (st, em)) in stored.iter().zip(emitted.iter()).enumerate() {
        assert_eq!(st.chunk_index, k as i64);
        assert_eq!(st.content, em.text);
        assert_eq!(st.document_id, 1);
        assert!(st.embedding.is_none());
    }

    // the second attempt changes nothing
    let second = lib.ingest_document("/tmp/notes.txt", "notes.txt", "text", &text, None, &cfg, 2000);
    assert_eq!(second, IngestOutcome::AlreadyPresent);
    assert_eq!(lib.document_count(), docs);
    assert_eq!(lib.chunk_count(), chunks);
}

#[test]
fn delete_document_cascades_to_chunks() {
    let mut lib = Library::new();
    let cfg = ChunkConfig {
        chunk_size: 20,
        overlap: 5,
    };
    lib.ingest_document("/a.txt", "a.txt", "text", &"alpha beta gamma delta ".repeat(5), None, &cfg, 1);
    lib.ingest_document("/b.txt", "b.txt", "text", "short", None, &cfg, 2);
    assert_eq!(lib.document_count(), 2);
    let doc = lib
        .get_document(1)
        .expect("first ingested document has id 1");
    assert_eq!(doc.filename, "a.txt");

    assert!(lib.delete_document(1));
    assert_eq!(lib.document_count(), 1);
    for c in lib.all_chunks() {
        assert_ne!(c.document_id, 1);
    }
    assert!(!lib.delete_document(1));
}

#[test]
fn keyword_search_matches_substring_case_insensitively() {
    let mut lib = Library::new();
    let cfg = ChunkConfig::default();
    lib.ingest_document(
        "/doc.txt",
        "doc.txt",
        "text",
        "The Krebs cycle produces ATP in mitochondria.",
        None,
        &cfg,
        1,
    );
    let hits = lib.search_content("krebs", 10);
    assert_eq!(hits.len(), 1);
    assert!(hits[0].1.contains("Krebs"));
    assert!(lib.search_content("photosynthesis", 10).is_empty());
}

#[test]
fn embedding_update_attaches_bytes() {
    let mut lib = Library::new();
    let cfg = ChunkConfig::default();
    lib.ingest_document("/doc.txt", "doc.txt", "text", "some content here", None, &cfg, 1);
    let id = lib.all_chunks()[0].id;
    assert!(lib.update_embedding(id, vec![0, 0, 128, 63]));
    let chunk = lib
        .all_chunks()
        .into_iter()
        .find(|c| c.id == id)
        .unwrap();
    assert_eq!(chunk.embedding, Some(vec![0, 0, 128, 63]));
    assert!(!lib.update_embedding(9999, vec![1]));
}

#[test]
fn study_items_live_in_the_store() {
    let mut lib = Library::new();
    let id = lib.insert_study_item(None, StudyItemKind::Flashcard, "Q", "A", 100);
    assert_eq!(lib.count_due(100), 1);
    assert_eq!(lib.count_due(50), 0);
    assert!(lib.review_item(id, 5, 100));
    // one day away now
    assert_eq!(lib.count_due(100), 0);
    let due_later = lib.get_due(100 + 100 * 864, 10);
    assert_eq!(due_later.len(), 1);
    assert_eq!(due_later[0].review_count, 1);
    assert!(!lib.review_item(id + 7, 5, 100));
}
