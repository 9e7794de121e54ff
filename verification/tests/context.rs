use librarian::context::{
    assemble_context, available_context_chars, decimal_string, decimal_string_i64,
    truncate_content, ContextBlock,
};

#[test]
fn truncate_returns_short_content_unchanged() {
    assert_eq!(truncate_content("short", 100), "short");
    assert_eq!(truncate_content("", 0), "");
}

#[test]
fn truncate_cuts_at_sentence_end() {
    let text = "First sentence. Second sentence. Third sentence goes on and on";
    let cut = truncate_content(text, 40);
    assert_eq!(cut, "First sentence. Second sentence.");
}

#[test]
fn truncate_falls_back_to_newline_then_ellipsis() {
    let text = "line one\nline two\nline three without end";
    let cut = truncate_content(text, 20);
    assert_eq!(cut, "line one\nline two");

    let solid = "x".repeat(50);
    let hard = truncate_content(&solid, 10);
    assert_eq!(hard, format!("{}...", "x".repeat(10)));
}

#[test]
fn truncate_never_splits_a_multibyte_character() {
    let text = "héllo wörld — ünïcodé content with àccénts everywhere".repeat(3);
    for max in 0..text.chars().count() {
        let cut = truncate_content(&text, max);
        // the result is valid text made of whole characters by construction;
        // its length stays within the bound plus the ellipsis
        assert!(cut.chars().count() <= max + 3);
    }
}

#[test]
fn budget_conversion_clamps() {
    // plenty of room: clamped to the ceiling
    assert_eq!(available_context_chars(0, 0, 1_000_000), 30000);
    // nothing left: clamped to the floor
    assert_eq!(available_context_chars(50_000, 50_000, 1000), 2000);
    // in between: tokens * 4 - used
    assert_eq!(available_context_chars(1000, 2000, 2000), 5000);
}

#[test]
fn assembled_context_never_exceeds_budget() {
    let blocks = vec![
        ContextBlock {
            doc_name: "notes.txt".to_string(),
            chunk_index: Some(0),
            content: "alpha ".repeat(300),
        },
        ContextBlock {
            doc_name: "paper.pdf".to_string(),
            chunk_index: Some(3),
            content: "beta ".repeat(300),
        },
        ContextBlock {
            doc_name: "web page".to_string(),
            chunk_index: None,
            content: "gamma ".repeat(300),
        },
    ];
    for budget in [0usize, 10, 100, 500, 2000, 100000] {
        let out = assemble_context(&blocks, budget, 2000);
        assert!(out.chars().count() <= budget);
    }
    let out = assemble_context(&blocks, 100000, 2000);
    assert!(out.contains("--- Document: notes.txt (chunk 0) ---"));
    assert!(out.contains("--- Document: paper.pdf (chunk 3) ---"));
    assert!(out.contains("--- Document: web page ---"));
}

#[test]
fn decimal_rendering_is_exact() {
    assert_eq!(decimal_string(0), "0");
    assert_eq!(decimal_string(7), "7");
    assert_eq!(decimal_string(1234567890), "1234567890");
    assert_eq!(decimal_string(u64::MAX), u64::MAX.to_string());
    assert_eq!(decimal_string_i64(-42), "-42");
    assert_eq!(decimal_string_i64(i64::MIN), i64::MIN.to_string());
}
