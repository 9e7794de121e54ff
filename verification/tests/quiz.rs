use librarian::bucket::sanitize_name;
use librarian::chat::{compose_user_message, derive_title};
use librarian::quiz::{
    extract_option, extract_question_text, parse_quiz_questions, QuizQuestion,
};

#[test]
fn question_lines_are_recognized() {
    assert_eq!(
        extract_question_text("1. What is photosynthesis?"),
        Some("What is photosynthesis?".to_string())
    );
    assert_eq!(
        extract_question_text("Q: Define entropy"),
        Some("Define entropy".to_string())
    );
    assert_eq!(
        extract_question_text("**3.** Bold question"),
        Some("Bold question".to_string())
    );
    assert_eq!(extract_question_text("not a question line"), None);
    assert_eq!(extract_question_text("42"), None);
}

#[test]
fn option_lines_are_recognized() {
    assert_eq!(
        extract_option("a) Mitochondria"),
        Some(('a', "Mitochondria".to_string()))
    );
    assert_eq!(extract_option("d: Ribosome"), Some(('d', "Ribosome".to_string())));
    assert_eq!(extract_option("e) Out of range"), None);
    assert_eq!(extract_option("plain text"), None);
}

#[test]
fn multiple_choice_blocks_parse() {
    let text = "1. What organelle produces ATP?\n   a) Nucleus\n   b) Mitochondria\n   c) Ribosome\n   d) Golgi\n";
    let questions = parse_quiz_questions(text);
    assert_eq!(questions.len(), 1);
    match &questions[0] {
        QuizQuestion::MultipleChoice { question, options, .. } => {
            assert_eq!(question, "What organelle produces ATP?");
            assert_eq!(options.len(), 4);
            assert_eq!(options[1], ('b', "Mitochondria".to_string()));
        }
        other => panic!("expected multiple choice, got {:?}", other),
    }
}

#[test]
fn fill_in_blank_blocks_parse() {
    let text = "1. The powerhouse of the cell is the ___.\n**Answer: mitochondria**\n";
    let questions = parse_quiz_questions(text);
    assert_eq!(questions.len(), 1);
    match &questions[0] {
        QuizQuestion::FillInBlank { question, answer } => {
            assert!(question.contains("___"));
            assert_eq!(answer, "mitochondria");
        }
        other => panic!("expected fill in the blank, got {:?}", other),
    }
}

#[test]
fn unparseable_text_yields_no_questions() {
    assert!(parse_quiz_questions("just prose, nothing numbered").is_empty());
    assert!(parse_quiz_questions("").is_empty());
}

#[test]
fn bucket_names_are_normalized() {
    assert_eq!(sanitize_name("  My Study Notes!  "), "my-study-notes");
    assert_eq!(sanitize_name("already-clean_1"), "already-clean_1");
    // normalizing twice changes nothing
    let once = sanitize_name("Weird  NAME (2024)");
    assert_eq!(sanitize_name(&once), once);
}

#[test]
fn chat_titles_cut_at_the_last_space() {
    assert_eq!(derive_title("short question"), "short");
    let long = "a".repeat(80);
    assert_eq!(derive_title(&long), "a".repeat(60));
}

#[test]
fn user_message_carries_context_when_present() {
    assert_eq!(compose_user_message("", "What is ATP?"), "What is ATP?");
    let with = compose_user_message("some context", "What is ATP?");
    assert!(with.starts_with("CONTEXT FROM YOUR STUDY MATERIALS:\n"));
    assert!(with.contains("some context"));
    assert!(with.ends_with("QUESTION: What is ATP?"));
}
