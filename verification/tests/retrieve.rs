use librarian::embedding::{bytes_to_embedding, embedding_to_bytes, top_k};
use librarian::retrieve::{build_fts_context, build_semantic_context, merge_ranked_ids};
use librarian::store::{Document, StoredChunk};

fn chunk(id: i64, doc: i64, idx: i64, content: &str) -> StoredChunk {
    StoredChunk {
        id,
        document_id: doc,
        chunk_index: idx,
        content: content.to_string(),
        embedding: None,
    }
}

#[test]
fn top_k_truncates_and_orders_descending() {
    let candidates = vec![(1, 10), (2, 50), (3, 30), (4, 50), (5, 5)];
    let top = top_k(&candidates, 3);
    assert_eq!(top.len(), 3);
    // descending scores, ties keeping input order
    assert_eq!(top, vec![(2, 50), (4, 50), (3, 30)]);
    assert!(top_k(&candidates, 0).is_empty());
    assert_eq!(top_k(&candidates, 10).len(), 5);
}

#[test]
fn embedding_bytes_round_trip() {
    let v: Vec<u32> = vec![0, 1, 0x3f800000, 0xdeadbeef];
    let bytes = embedding_to_bytes(&v);
    assert_eq!(bytes.len(), 16);
    let back = bytes_to_embedding(&bytes).expect("well-formed bytes");
    assert_eq!(back, v);
}

#[test]
fn malformed_embedding_bytes_are_rejected() {
    // a length that is not a multiple of four is surfaced, never coerced
    assert!(bytes_to_embedding(&vec![1, 2, 3]).is_none());
    assert!(bytes_to_embedding(&vec![]).is_some());
}

#[test]
fn merge_keeps_keyword_hits_first_without_duplicates() {
    let kw = vec![5, 3, 9];
    let sem = vec![3, 7, 5, 11];
    assert_eq!(merge_ranked_ids(&kw, &sem), vec![5, 3, 9, 7, 11]);
}

#[test]
fn semantic_context_labels_and_respects_budget() {
    let chunks = vec![
        chunk(1, 1, 0, "The Krebs cycle produces ATP."),
        chunk(2, 1, 1, "Photosynthesis happens in chloroplasts."),
        chunk(3, 2, 0, "Completely unrelated cooking recipe."),
    ];
    let keyword_hits = vec![(1, "The Krebs cycle produces ATP.".to_string())];
    let semantic_ids = vec![2, 3];
    let docs = vec![(1, "biology.pdf".to_string()), (2, "recipes.txt".to_string())];

    let out = build_semantic_context(&chunks, &keyword_hits, &semantic_ids, &docs, 5000);
    assert!(out.chars().count() <= 5000);
    assert!(out.contains("--- Document: biology.pdf (chunk 0) ---"));
    assert!(out.contains("Krebs"));
    assert!(out.contains("--- Document: recipes.txt (chunk 0) ---"));
    // keyword hit comes first
    let kw_pos = out.find("Krebs").unwrap();
    let sem_pos = out.find("Photosynthesis").unwrap();
    assert!(kw_pos < sem_pos);

    let tight = build_semantic_context(&chunks, &keyword_hits, &semantic_ids, &docs, 120);
    assert!(tight.chars().count() <= 120);
}

fn doc(id: i64, name: &str, content: &str) -> Document {
    Document {
        id,
        source_path: format!("/{}", name),
        filename: name.to_string(),
        content_type: "text".to_string(),
        content: content.to_string(),
        tags: None,
        created_at: 0,
        updated_at: 0,
    }
}

#[test]
fn fts_context_falls_back_to_first_documents() {
    let all = vec![
        doc(1, "a.txt", "first document body"),
        doc(2, "b.txt", "second document body"),
    ];
    let out = build_fts_context(&Vec::new(), &all, 4000);
    assert!(out.contains("--- Document: a.txt ---"));
    assert!(out.contains("first document body"));
    assert!(out.chars().count() <= 4000);

    let results = vec![doc(3, "hit.txt", "matched content")];
    let out2 = build_fts_context(&results, &all, 4000);
    assert!(out2.contains("--- Document: hit.txt ---"));
    assert!(!out2.contains("a.txt"));
}
