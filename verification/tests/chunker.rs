use librarian::chunker::{chunk_text, ChunkConfig};

#[test]
fn test_small_text() {
    let config = ChunkConfig::default();
    let chunks = chunk_text("Hello world", &config);
    assert_eq!(chunks.len(), 1);
    assert_eq!(chunks[0].text, "Hello world");
}

#[test]
fn test_large_text() {
    let config = ChunkConfig {
        chunk_size: 100,
        overlap: 20,
    };
    let text = "A".repeat(500);
    let chunks = chunk_text(&text, &config);
    assert!(chunks.len() > 1);
}

#[test]
fn empty_text_yields_no_chunks() {
    let config = ChunkConfig::default();
    assert!(chunk_text("", &config).is_empty());
    assert!(chunk_text("   \n\t  ", &config).is_empty());
}

#[test]
fn single_chunk_is_trimmed_text() {
    let config = ChunkConfig::default();
    let chunks = chunk_text("  padded text  ", &config);
    assert_eq!(chunks.len(), 1);
    assert_eq!(chunks[0].text, "padded text");
    assert_eq!(chunks[0].index, 0);
    assert_eq!(chunks[0].start_char, 0);
    assert_eq!(chunks[0].end_char, "padded text".chars().count());
}

#[test]
fn ordinals_are_dense_and_spans_cover() {
    let config = ChunkConfig {
        chunk_size: 50,
        overlap: 10,
    };
    let text = "one two three four five six seven eight nine ten. ".repeat(10);
    let chunks = chunk_text(&text, &config);
    assert!(chunks.len() >= 2);
    for (i, c) in chunks.iter().enumerate() {
        assert_eq!(c.index, i);
        assert!(c.start_char < c.end_char);
        assert!(c.end_char - c.start_char <= 50);
    }
    for w in chunks.windows(2) {
        assert!(w[0].start_char < w[1].start_char);
    }
    // every non-whitespace character of the trimmed text is inside a span
    let trimmed: Vec<char> = text.trim().chars().collect();
    for (pos, ch) in trimmed.iter().enumerate() {
        if !ch.is_whitespace() {
            assert!(
                chunks.iter().any(|c| c.start_char <= pos && pos < c.end_char),
                "position {} uncovered",
                pos
            );
        }
    }
    assert_eq!(chunks.last().unwrap().end_char, trimmed.len());
}

#[test]
fn breaks_prefer_sentence_boundaries() {
    let config = ChunkConfig {
        chunk_size: 40,
        overlap: 5,
    };
    let text = "First sentence here. Second sentence is a bit longer. Third one.";
    let chunks = chunk_text(text, &config);
    assert!(chunks.len() >= 2);
    // the first chunk ends just after a sentence terminator
    assert!(chunks[0].text.ends_with('.'));
}
