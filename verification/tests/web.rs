use librarian::web::{clean_text, is_youtube_url, parse_vtt, remove_vtt_tags};

#[test]
fn test_clean_text() {
    let input = "  Hello   world  \n\n\n  This is   a test  ";
    let output = clean_text(input);
    assert!(output.contains("Hello world"));
    assert!(output.contains("This is a test"));
}

#[test]
fn test_is_youtube_url() {
    assert!(is_youtube_url("https://www.youtube.com/watch?v=abc123"));
    assert!(is_youtube_url("https://youtu.be/abc123"));
    assert!(!is_youtube_url("https://example.com"));
}

#[test]
fn youtube_detection_looks_at_the_host_only() {
    assert!(!is_youtube_url("https://example.com/youtube.com"));
    assert!(!is_youtube_url("not a url at all"));
    // user information and ports are not part of the host
    assert!(!is_youtube_url("https://youtube.com@example.com/"));
    assert!(is_youtube_url("https://user@www.youtube.com/watch?v=abc"));
    assert!(is_youtube_url("https://youtube.com:8080/watch?v=abc"));
}

#[test]
fn vtt_tags_are_removed() {
    assert_eq!(remove_vtt_tags("<c>hello</c> world"), "hello world");
    assert_eq!(remove_vtt_tags("no tags"), "no tags");
    assert_eq!(remove_vtt_tags("<00:00:01.000>timed"), "timed");
}

#[test]
fn vtt_parse_drops_headers_and_repeats() {
    let vtt = "WEBVTT\nKind: captions\nLanguage: en\n\n00:00:01.000 --> 00:00:02.000\nhello there\n\n00:00:02.000 --> 00:00:03.000\nhello there\n\n00:00:03.000 --> 00:00:04.000\ngeneral greeting\n";
    let text = parse_vtt(vtt);
    assert_eq!(text, "hello there general greeting");
}

#[test]
fn clean_text_drops_very_short_lines() {
    let output = clean_text("ok\nlonger line here\nno");
    assert!(!output.contains("ok"));
    assert!(output.contains("longer line here"));
}
