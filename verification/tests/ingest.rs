use librarian::ingest::{
    clean_ocr_text, content_type_str, is_audio_file, is_image_file, is_video_file,
    requires_async_processing, requires_transcription, ContentType,
};

#[test]
fn test_is_image_file() {
    assert!(is_image_file("test.png"));
    assert!(is_image_file("test.jpg"));
    assert!(is_image_file("test.JPEG"));
    assert!(!is_image_file("test.pdf"));
    assert!(!is_image_file("test.txt"));
}

#[test]
fn test_clean_ocr_text() {
    let input = "  Hello World  \n\n\n  This is OCR text  \n | \n More text";
    let output = clean_ocr_text(input);
    assert!(output.contains("Hello World"));
    assert!(output.contains("This is OCR text"));
    assert!(output.contains("More text"));
}

#[test]
fn clean_ocr_drops_punctuation_noise_lines() {
    let output = clean_ocr_text("real line\n|\n.\nanother line");
    assert!(!output.contains('|'));
    assert!(output.contains("real line"));
    assert!(output.contains("another line"));
}

#[test]
fn content_type_classification() {
    assert_eq!(ContentType::from_path("a/b/doc.pdf"), ContentType::Pdf);
    assert_eq!(ContentType::from_path("notes.TXT"), ContentType::Text);
    assert_eq!(ContentType::from_path("readme.md"), ContentType::Markdown);
    assert_eq!(ContentType::from_path("song.mp3"), ContentType::Audio);
    assert_eq!(ContentType::from_path("clip.mkv"), ContentType::Video);
    assert_eq!(ContentType::from_path("scan.webp"), ContentType::Image);
    assert_eq!(ContentType::from_path("noext"), ContentType::Unknown);
    assert_eq!(ContentType::from_path(".hidden"), ContentType::Unknown);
}

#[test]
fn media_needs_async_processing() {
    assert!(requires_transcription("talk.mp3"));
    assert!(requires_transcription("talk.mov"));
    assert!(!requires_transcription("talk.pdf"));
    assert!(requires_async_processing("scan.png"));
    assert!(!requires_async_processing("notes.md"));
}

#[test]
fn audio_and_video_extension_checks_are_exact_case() {
    assert!(is_audio_file("a.mp3"));
    assert!(is_audio_file("a.webm"));
    assert!(!is_audio_file("a.MP3")); // the transcription check is case-exact
    assert!(is_video_file("b.mp4"));
    assert!(is_video_file("b.webm"));
    assert!(!is_video_file("b.mpeg"));
}

#[test]
fn content_type_tags_round_readably() {
    assert_eq!(content_type_str(&ContentType::Pdf), "pdf");
    assert_eq!(content_type_str(&ContentType::Markdown), "markdown");
    assert_eq!(content_type_str(&ContentType::Unknown), "unknown");
}
