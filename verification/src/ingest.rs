//! Content types and ingestion helpers: classifying a source by its file
//! extension and cleaning up extracted text.
//!
//! Paths are carried as plain strings; the extension is the part of the
//! file name after its last dot.

use vstd::prelude::*;

use crate::text::{
    chars_vec, eq_ignore_case, is_ascii_alnum, rfind_char, spec_eq_ignore_case,
    spec_is_ascii_alnum, spec_trim, trim_bounds_range,
};

verus! {

/// Supported content types.
#[derive(Debug, Clone, Copy, PartialEq, Eq, Structural)]
pub enum ContentType {
    Pdf,
    Text,
    Markdown,
    Audio,
    Video,
    Image,
    Url,
    Unknown,
}

/// Extracted content from a source.
#[derive(Debug, Clone)]
pub struct ExtractedContent {
    pub source: String,
    pub content_type: ContentType,
    pub text: String,
}

/// The extension span of a path: the characters after the last `.` of the
/// file name (the part after the last `/`), provided the dot is not the
/// name's first character.
pub open spec fn spec_has_extension(path: Seq<char>, a: int, b: int) -> bool {
    &&& 0 < a <= b == path.len()
    &&& path[a - 1] == '.'
    &&& forall|k: int| a <= k < b ==> path[k] != '.' && path[k] != '/'
    &&& a >= 2 && path[a - 2] != '/'
}

/// Whether the path's extension equals `ext`, ignoring ASCII case.
pub open spec fn spec_ext_is(path: Seq<char>, ext: Seq<char>) -> bool {
    exists|a: int|
        #![trigger path.subrange(a, path.len() as int)]
        spec_has_extension(path, a, path.len() as int) && path.subrange(a, path.len() as int).len()
            == ext.len() && forall|k: int|
            0 <= k < ext.len() ==> spec_eq_ignore_case(path[a + k], ext[k])
}

/// Finds the extension span of the path, if any.
fn extension_span(path: &str, cv: &Vec<char>) -> (r: Option<usize>)
    requires
        cv@ == path@,
    ensures
        match r {
            Some(a) => spec_has_extension(path@, a as int, path@.len() as int),
            None => forall|a: int| !spec_has_extension(path@, a, path@.len() as int),
        },
{
    let n = cv.len();
    // no '.' or '/' may follow the extension dot
    match rfind_char(cv, 0, n, '.') {
        Some(dot) => {
            // nothing after the dot may be a slash
            let mut ok = true;
            let mut k: usize = dot + 1;
            while k < n
                invariant
                    dot < k <= n == cv@.len(),
                    cv@ == path@,
                    ok == (forall|q: int| dot < q < k ==> cv@[q] != '/'),
                decreases n - k,
            {
                if cv[k] == '/' {
                    ok = false;
                }
                k += 1;
            }
            if ok && dot >= 1 && cv[dot - 1] != '/' {
                proof {
                    assert(spec_has_extension(path@, dot + 1, path@.len() as int));
                }
                Some(dot + 1)
            } else {
                proof {
                    assert forall|a: int| !spec_has_extension(path@, a, path@.len() as int) by {
                        if spec_has_extension(path@, a, path@.len() as int) {
                            if a - 1 > dot {
                                assert(path@[a - 1] == '.');
                            } else if a - 1 < dot {
                                assert(path@[dot as int] == '.');
                                assert(a <= dot < path@.len());
                            } else {
                                if !ok {
                                    let q = choose|q: int|
                                        dot < q < n && #[trigger] cv@[q] == '/';
                                    assert(path@[q] == '/');
                                } else {
                                    assert(a >= 2 && path@[a - 2] != '/');
                                }
                            }
                        }
                    }
                }
                None
            }
        },
        None => {
            proof {
                assert forall|a: int| !spec_has_extension(path@, a, path@.len() as int) by {
                    if spec_has_extension(path@, a, path@.len() as int) {
                        assert(path@[a - 1] == '.');
                    }
                }
            }
            None
        },
    }
}

/// Compares the path's extension case-insensitively against `ext`.
fn ext_matches(path: &str, cv: &Vec<char>, a: Option<usize>, ext: &str) -> (r: bool)
    requires
        cv@ == path@,
        match a {
            Some(a0) => spec_has_extension(path@, a0 as int, path@.len() as int),
            None => forall|q: int| !spec_has_extension(path@, q, path@.len() as int),
        },
    ensures
        r == spec_ext_is(path@, ext@),
{
    let ev = chars_vec(ext);
    match a {
        Some(a0) => {
            let n = cv.len();
            if n - a0 != ev.len() {
                proof {
                    assert forall|q: int|
                        !(spec_has_extension(path@, q, path@.len() as int) && path@.subrange(
                            q,
                            path@.len() as int,
                        ).len() == ext@.len() && forall|k: int|
                            0 <= k < ext@.len() ==> spec_eq_ignore_case(
                                path@[q + k],
                                ext@[k],
                            )) by {
                        if spec_has_extension(path@, q, path@.len() as int) {
                            lemma_extension_unique(path@, a0 as int, q);
                        }
                    }
                }
                return false;
            }
            let mut k: usize = 0;
            while k < ev.len()
                invariant
                    a0 + ev@.len() == n == cv@.len(),
                    cv@ == path@,
                    ev@ == ext@,
                    k <= ev@.len(),
                    spec_has_extension(path@, a0 as int, path@.len() as int),
                    forall|q: int| 0 <= q < k ==> spec_eq_ignore_case(path@[a0 + q], ext@[q]),
                decreases ev@.len() - k,
            {
                if !eq_ignore_case(cv[a0 + k], ev[k]) {
                    proof {
                        assert forall|q: int|
                            !(spec_has_extension(path@, q, path@.len() as int) && path@.subrange(
                                q,
                                path@.len() as int,
                            ).len() == ext@.len() && forall|k2: int|
                                0 <= k2 < ext@.len() ==> spec_eq_ignore_case(
                                    path@[q + k2],
                                    ext@[k2],
                                )) by {
                            if spec_has_extension(path@, q, path@.len() as int) {
                                lemma_extension_unique(path@, a0 as int, q);
                            }
                        }
                    }
                    return false;
                }
                k += 1;
            }
            proof {
                assert(path@.subrange(a0 as int, path@.len() as int).len() == ext@.len());
            }
            true
        },
        None => {
            proof {
                assert(!spec_ext_is(path@, ext@));
            }
            false
        },
    }
}

/// A path has at most one extension span.
proof fn lemma_extension_unique(path: Seq<char>, a: int, b: int)
    requires
        spec_has_extension(path, a, path.len() as int),
        spec_has_extension(path, b, path.len() as int),
    ensures
        a == b,
{
    if a < b {
        assert(path[b - 1] == '.');
        assert(a <= b - 1 < path.len());
    } else if b < a {
        assert(path[a - 1] == '.');
        assert(b <= a - 1 < path.len());
    }
}

/// The content type a path's extension selects.
pub open spec fn spec_content_type(path: Seq<char>) -> ContentType {
    if spec_ext_is(path, "pdf"@) {
        ContentType::Pdf
    } else if spec_ext_is(path, "txt"@) {
        ContentType::Text
    } else if spec_ext_is(path, "md"@) || spec_ext_is(path, "markdown"@) {
        ContentType::Markdown
    } else if spec_ext_is(path, "mp3"@) || spec_ext_is(path, "wav"@) || spec_ext_is(path, "m4a"@)
        || spec_ext_is(path, "ogg"@) || spec_ext_is(path, "flac"@) {
        ContentType::Audio
    } else if spec_ext_is(path, "mp4"@) || spec_ext_is(path, "mkv"@) || spec_ext_is(path, "avi"@)
        || spec_ext_is(path, "mov"@) || spec_ext_is(path, "webm"@) || spec_ext_is(path, "flv"@) {
        ContentType::Video
    } else if spec_ext_is(path, "png"@) || spec_ext_is(path, "jpg"@) || spec_ext_is(path, "jpeg"@)
        || spec_ext_is(path, "gif"@) || spec_ext_is(path, "bmp"@) || spec_ext_is(path, "tiff"@)
        || spec_ext_is(path, "tif"@) || spec_ext_is(path, "webp"@) {
        ContentType::Image
    } else {
        ContentType::Unknown
    }
}

impl ContentType {
    /// Classify a source file by its extension, case-insensitively.
    pub fn from_path(path: &str) -> (r: ContentType)
        ensures
            r == spec_content_type(path@),
    {
        let cv = chars_vec(path);
        let a = extension_span(path, &cv);
        if ext_matches(path, &cv, a, "pdf") {
            ContentType::Pdf
        } else if ext_matches(path, &cv, a, "txt") {
            ContentType::Text
        } else if ext_matches(path, &cv, a, "md") || ext_matches(path, &cv, a, "markdown") {
            ContentType::Markdown
        } else if ext_matches(path, &cv, a, "mp3") || ext_matches(path, &cv, a, "wav")
            || ext_matches(path, &cv, a, "m4a") || ext_matches(path, &cv, a, "ogg")
            || ext_matches(path, &cv, a, "flac") {
            ContentType::Audio
        } else if ext_matches(path, &cv, a, "mp4") || ext_matches(path, &cv, a, "mkv")
            || ext_matches(path, &cv, a, "avi") || ext_matches(path, &cv, a, "mov")
            || ext_matches(path, &cv, a, "webm") || ext_matches(path, &cv, a, "flv") {
            ContentType::Video
        } else if ext_matches(path, &cv, a, "png") || ext_matches(path, &cv, a, "jpg")
            || ext_matches(path, &cv, a, "jpeg") || ext_matches(path, &cv, a, "gif")
            || ext_matches(path, &cv, a, "bmp") || ext_matches(path, &cv, a, "tiff")
            || ext_matches(path, &cv, a, "tif") || ext_matches(path, &cv, a, "webp") {
            ContentType::Image
        } else {
            ContentType::Unknown
        }
    }

    /// Audio and video need transcription.
    pub fn is_media(&self) -> (r: bool)
        ensures
            r == (*self == ContentType::Audio || *self == ContentType::Video),
    {
        match self {
            ContentType::Audio => true,
            ContentType::Video => true,
            _ => false,
        }
    }

    pub fn is_image(&self) -> (r: bool)
        ensures
            r == (*self == ContentType::Image),
    {
        match self {
            ContentType::Image => true,
            _ => false,
        }
    }
}

/// The persisted tag of a content type.
pub open spec fn spec_content_type_str(ct: ContentType) -> Seq<char> {
    match ct {
        ContentType::Pdf => "pdf"@,
        ContentType::Text => "text"@,
        ContentType::Markdown => "markdown"@,
        ContentType::Audio => "audio"@,
        ContentType::Video => "video"@,
        ContentType::Image => "image"@,
        ContentType::Url => "url"@,
        ContentType::Unknown => "unknown"@,
    }
}

pub fn content_type_str(ct: &ContentType) -> (r: &'static str)
    ensures
        r@ == spec_content_type_str(*ct),
{
    match ct {
        ContentType::Pdf => "pdf",
        ContentType::Text => "text",
        ContentType::Markdown => "markdown",
        ContentType::Audio => "audio",
        ContentType::Video => "video",
        ContentType::Image => "image",
        ContentType::Url => "url",
        ContentType::Unknown => "unknown",
    }
}

/// Whether a file needs transcription before ingestion.
pub fn requires_transcription(path: &str) -> (r: bool)
    ensures
        r == (spec_content_type(path@) == ContentType::Audio || spec_content_type(path@)
            == ContentType::Video),
{
    let ct = ContentType::from_path(path);
    ct.is_media()
}

/// Whether a file needs asynchronous processing (transcription or optical
/// character recognition).
pub fn requires_async_processing(path: &str) -> (r: bool)
    ensures
        r == (spec_content_type(path@) == ContentType::Audio || spec_content_type(path@)
            == ContentType::Video || spec_content_type(path@) == ContentType::Image),
{
    let ct = ContentType::from_path(path);
    ct.is_media() || ct.is_image()
}

/// Whether the path names an image file that optical character
/// recognition can read.
pub fn is_image_file(path: &str) -> (r: bool)
    ensures
        r == (spec_content_type(path@) == ContentType::Image),
{
    let ct = ContentType::from_path(path);
    ct.is_image()
}

/// One step of the cleanup fold: the line starting at `i`, trimmed, is
/// appended (after a separating line break), collapses a blank run to one
/// break, or is dropped as one-character punctuation noise.
pub open spec fn spec_clean_ocr_from(s: Seq<char>, i: int, out: Seq<char>, prev_nl: bool) -> Seq<
    char,
>
    decreases s.len() - i,
    when 0 <= i
{
    if i >= s.len() {
        out
    } else {
        let j0 = crate::text::line_end(s, i);
        let j = if i <= j0 <= s.len() { j0 } else { s.len() as int };
        let tx = spec_trim(s.subrange(i, j));
        let next = if j < s.len() { j + 1 } else { s.len() as int };
        if tx.len() == 0 {
            if !prev_nl && out.len() > 0 {
                spec_clean_ocr_from(s, next, out + seq!['\n'], true)
            } else {
                spec_clean_ocr_from(s, next, out, prev_nl)
            }
        } else if tx.len() < 2 && !spec_is_ascii_alnum(tx[0]) {
            spec_clean_ocr_from(s, next, out, prev_nl)
        } else {
            let o = if out.len() > 0 && !prev_nl { out + seq!['\n'] } else { out };
            spec_clean_ocr_from(s, next, o + tx, false)
        }
    }
}

/// The cleaned form of recognized text.
pub open spec fn spec_clean_ocr(s: Seq<char>) -> Seq<char> {
    spec_trim(spec_clean_ocr_from(s, 0, Seq::empty(), false))
}

/// Clean up text that came out of optical character recognition: lines
/// are trimmed, blank runs collapse to one line break, and one-character
/// lines of punctuation noise are dropped.  The result carries no
/// surrounding whitespace.
pub fn clean_ocr_text(text: &str) -> (r: String)
    ensures
        r@ == spec_clean_ocr(text@),
        spec_trim(r@) == r@,
{
    let cv = chars_vec(text);
    let n = cv.len();
    let mut out = String::new();
    let mut prev_was_newline = false;
    let mut i: usize = 0;
    proof {
        assert(out@ =~= Seq::<char>::empty());
    }
    while i < n
        invariant
            i <= n == cv@.len(),
            cv@ == text@,
            spec_clean_ocr_from(cv@, 0, Seq::empty(), false) == spec_clean_ocr_from(
                cv@,
                i as int,
                out@,
                prev_was_newline,
            ),
        decreases n - i,
    {
        // find the end of this line
        let mut j: usize = i;
        while j < n && cv[j] != '\n'
            invariant
                i <= j <= n == cv@.len(),
                crate::text::line_end(cv@, i as int) == crate::text::line_end(cv@, j as int),
            decreases n - j,
        {
            j += 1;
        }
        proof {
            assert(crate::text::line_end(cv@, j as int) == j);
        }
        let (a, b) = trim_bounds_range(&cv, i, j);
        let ghost tx = spec_trim(cv@.subrange(i as int, j as int));
        proof {
            assert(tx == cv@.subrange(a as int, b as int));
        }
        if a < b {
            // skip one-character noise lines
            let noise = b - a < 2 && !is_ascii_alnum(cv[a]);
            proof {
                assert(tx[0] == cv@[a as int]);
            }
            if !noise {
                if out.as_str().unicode_len() > 0 && !prev_was_newline {
                    out.append("\n");
                    proof {
                        reveal_strlit("\n");
                        assert("\n"@ =~= seq!['\n']);
                    }
                }
                out.append(text.substring_char(a, b));
                prev_was_newline = false;
            }
        } else {
            if !prev_was_newline && out.as_str().unicode_len() > 0 {
                out.append("\n");
                prev_was_newline = true;
                proof {
                    reveal_strlit("\n");
                    assert("\n"@ =~= seq!['\n']);
                }
            }
        }
        i = if j < n {
            j + 1
        } else {
            n
        };
    }
    // trim whatever blank tail the collapse may have left
    let ov = chars_vec(out.as_str());
    let (ta, tb) = trim_bounds_range(&ov, 0, ov.len());
    proof {
        assert(ov@.subrange(0, ov@.len() as int) =~= ov@);
    }
    let r = out.as_str().substring_char(ta, tb).to_owned();
    proof {
        assert(spec_clean_ocr_from(cv@, i as int, out@, prev_was_newline) == out@);
        if ta < tb {
            crate::text::lemma_trim_of_trimmed(ov@, ta as int, tb as int);
        } else {
            crate::text::lemma_trim_is_subrange(r@, 0, 0);
            assert(r@ =~= ov@.subrange(ta as int, ta as int));
            assert(r@.subrange(0, 0) =~= r@);
        }
    }
    r
}

/// Exact-case equality of the path's extension with `ext`.
pub open spec fn spec_ext_is_exact(path: Seq<char>, ext: Seq<char>) -> bool {
    exists|a: int|
        #![trigger path.subrange(a, path.len() as int)]
        spec_has_extension(path, a, path.len() as int) && path.subrange(a, path.len() as int)
            == ext
}

/// Compares the path's extension exactly against `ext`.
fn ext_matches_exact(path: &str, cv: &Vec<char>, a: Option<usize>, ext: &str) -> (r: bool)
    requires
        cv@ == path@,
        match a {
            Some(a0) => spec_has_extension(path@, a0 as int, path@.len() as int),
            None => forall|q: int| !spec_has_extension(path@, q, path@.len() as int),
        },
    ensures
        r == spec_ext_is_exact(path@, ext@),
{
    let ev = chars_vec(ext);
    match a {
        Some(a0) => {
            let r = crate::text::range_matches(cv, a0, &ev) && cv.len() - a0 == ev.len();
            proof {
                if r {
                    assert(path@.subrange(a0 as int, path@.len() as int) =~= ext@);
                } else {
                    assert forall|q: int|
                        !(spec_has_extension(path@, q, path@.len() as int) && path@.subrange(
                            q,
                            path@.len() as int,
                        ) == ext@) by {
                        if spec_has_extension(path@, q, path@.len() as int) {
                            lemma_extension_unique(path@, a0 as int, q);
                            if path@.subrange(a0 as int, path@.len() as int) == ext@ {
                                assert(crate::text::spec_matches_at(cv@, a0 as int, ext@));
                            }
                        }
                    }
                }
            }
            r
        },
        None => {
            proof {
                assert(!spec_ext_is_exact(path@, ext@));
            }
            false
        },
    }
}

/// Whether the path names an audio file (matched by exact extension, as
/// the transcription step expects).
pub fn is_audio_file(path: &str) -> (r: bool)
    ensures
        r == (spec_ext_is_exact(path@, "mp3"@) || spec_ext_is_exact(path@, "wav"@)
            || spec_ext_is_exact(path@, "m4a"@) || spec_ext_is_exact(path@, "ogg"@)
            || spec_ext_is_exact(path@, "flac"@) || spec_ext_is_exact(path@, "webm"@)),
{
    let cv = chars_vec(path);
    let a = extension_span(path, &cv);
    ext_matches_exact(path, &cv, a, "mp3") || ext_matches_exact(path, &cv, a, "wav")
        || ext_matches_exact(path, &cv, a, "m4a") || ext_matches_exact(path, &cv, a, "ogg")
        || ext_matches_exact(path, &cv, a, "flac") || ext_matches_exact(path, &cv, a, "webm")
}

/// Whether the path names a video file (matched by exact extension).
pub fn is_video_file(path: &str) -> (r: bool)
    ensures
        r == (spec_ext_is_exact(path@, "mp4"@) || spec_ext_is_exact(path@, "mkv"@)
            || spec_ext_is_exact(path@, "avi"@) || spec_ext_is_exact(path@, "mov"@)
            || spec_ext_is_exact(path@, "webm"@) || spec_ext_is_exact(path@, "flv"@)),
{
    let cv = chars_vec(path);
    let a = extension_span(path, &cv);
    ext_matches_exact(path, &cv, a, "mp4") || ext_matches_exact(path, &cv, a, "mkv")
        || ext_matches_exact(path, &cv, a, "avi") || ext_matches_exact(path, &cv, a, "mov")
        || ext_matches_exact(path, &cv, a, "webm") || ext_matches_exact(path, &cv, a, "flv")
}

} // verus!
