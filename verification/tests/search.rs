use librarian::search::{chunks_overlap, deduplicate_chunks, enhance_query, extract_references};

#[test]
fn test_enhance_query_strips_filler() {
    assert_eq!(enhance_query("what is the mitochondria"), "mitochondria");
    assert_eq!(
        enhance_query("explain the process of photosynthesis"),
        "process of photosynthesis"
    );
    assert_eq!(
        enhance_query("how does DNA replication work?"),
        "DNA replication work"
    );
}

#[test]
fn test_enhance_query_preserves_plain() {
    assert_eq!(
        enhance_query("mitochondria function"),
        "mitochondria function"
    );
    assert_eq!(enhance_query("DNA replication"), "DNA replication");
}

#[test]
fn test_enhance_query_exercise_references() {
    let result = enhance_query(
        "can you give me the answer for the chapter 0 exercises specifically 0.3?",
    );
    // the exercise number must survive for keyword matching
    assert!(result.contains("0.3"));
    assert!(result.contains("chapter 0 exercises"));
}

#[test]
fn test_enhance_query_page_reference() {
    let result = enhance_query("what is on page 26?");
    assert!(result.contains("26"));
}

#[test]
fn enhance_query_trailing_filler_and_empty() {
    assert_eq!(
        enhance_query("question 2 and all its sub questions"),
        "question 2 2"
    );
    assert_eq!(enhance_query(""), "");
    assert_eq!(enhance_query("???"), "");
}

#[test]
fn test_chunks_overlap_high() {
    let a = "the quick brown fox jumps over the lazy dog";
    let b = "the quick brown fox jumps over the lazy cat";
    assert!(chunks_overlap(a, b, 70));
}

#[test]
fn test_chunks_overlap_low() {
    let a = "the quick brown fox";
    let b = "completely different text here";
    assert!(!chunks_overlap(a, b, 50));
}

#[test]
fn chunks_overlap_empty_never_matches() {
    assert!(!chunks_overlap("", "anything here", 0));
    assert!(!chunks_overlap("...", "!!!", 0));
}

#[test]
fn chunks_overlap_is_case_insensitive() {
    assert!(chunks_overlap("The Quick Fox", "the quick fox", 100));
}

#[test]
fn test_deduplicate_chunks() {
    let chunks = vec![
        (
            1,
            "the quick brown fox jumps over the lazy dog near the river".to_string(),
        ),
        (
            2,
            "the quick brown fox jumps over the lazy dog near the lake".to_string(),
        ), // near duplicate of the first
        (
            3,
            "completely different content about biology and chemistry".to_string(),
        ),
    ];
    let deduped = deduplicate_chunks(chunks);
    assert_eq!(deduped.len(), 2);
    assert_eq!(deduped[0].0, 1);
    assert_eq!(deduped[1].0, 3);
}

#[test]
fn deduplicate_keeps_dissimilar_pair() {
    let chunks = vec![
        (7, "alpha beta gamma delta".to_string()),
        (8, "epsilon zeta eta theta".to_string()),
    ];
    let deduped = deduplicate_chunks(chunks);
    assert_eq!(deduped.len(), 2);
}

#[test]
fn references_are_collected_in_order() {
    let refs = extract_references("see chapter 2 and exercise 3.1 then page 26");
    assert_eq!(refs, vec!["2", "3.1", "26"]);
    assert!(extract_references("no references here").is_empty());
    // the keyword must be directly followed by a token with a digit
    assert!(extract_references("chapter about nothing").is_empty());
}

#[test]
fn reference_tokens_are_lower_cased() {
    assert_eq!(extract_references("Exercise 5B"), vec!["5b"]);
    let out = enhance_query("what is in Exercise 5B");
    assert!(out.ends_with("5b"));
}
