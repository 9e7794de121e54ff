//! Web-content helpers: recognizing video-platform links and cleaning
//! scraped or subtitle text.  Fetching, HTML parsing and subtitle download
//! belong to the surrounding program; the text that comes back is cleaned
//! here.

use vstd::prelude::*;

use crate::search::{find_in_chars, spec_find_from};
use crate::text::{
    chars_vec, copy_range, is_ascii_digit_char, spec_is_ascii_digit, spec_trim,
    trim_bounds_range, word_spans, word_spans_from,
};

verus! {

/// Extracted content from a web address.
#[derive(Debug, Clone)]
pub struct UrlContent {
    pub url: String,
    pub title: String,
    pub text: String,
}

/// The host part of an address: the authority between `://` and the next
/// slash (or the end), with any user information (up to the last `@`) and
/// any port (from the first `:`) removed.
pub open spec fn spec_url_host(url: Seq<char>) -> Seq<char> {
    let p = spec_find_from(url, "://"@, 0);
    if p < 0 {
        Seq::empty()
    } else {
        let rest = url.skip(p + 3);
        let e = spec_find_from(rest, "/"@, 0);
        let auth = if e < 0 {
            rest
        } else {
            rest.take(e)
        };
        let a = crate::context::spec_rfind_char(auth, '@');
        let h = if a < 0 {
            auth
        } else {
            auth.skip(a + 1)
        };
        let c = spec_find_from(h, ":"@, 0);
        if c < 0 {
            h
        } else {
            h.take(c)
        }
    }
}

/// Whether the address points at one of the video platforms whose
/// transcripts are fetched instead of the page.
pub open spec fn spec_is_youtube_url(url: Seq<char>) -> bool {
    let host = spec_url_host(url);
    spec_find_from(host, "youtube.com"@, 0) >= 0 || spec_find_from(host, "youtu.be"@, 0) >= 0
}

/// Check whether the address is a video-platform link, by its host.
pub fn is_youtube_url(url: &str) -> (r: bool)
    ensures
        r == spec_is_youtube_url(url@),
{
    let cv = chars_vec(url);
    let scheme_sep = chars_vec("://");
    let slash = chars_vec("/");
    let colon = chars_vec(":");
    let yt1 = chars_vec("youtube.com");
    let yt2 = chars_vec("youtu.be");
    match find_in_chars(&cv, &scheme_sep) {
        None => {
            proof {
                assert(spec_url_host(url@) =~= Seq::<char>::empty());
                assert(spec_find_from(Seq::<char>::empty(), "youtube.com"@, 0) == -1) by {
                    reveal_strlit("youtube.com");
                }
                assert(spec_find_from(Seq::<char>::empty(), "youtu.be"@, 0) == -1) by {
                    reveal_strlit("youtu.be");
                }
            }
            false
        },
        Some(p) => {
            let nn = cv.len();
            proof {
                assert(p + scheme_sep@.len() <= nn);
            }
            let hstart = p + scheme_sep.len();
            let rest = crate::text::copy_range(&cv, hstart, cv.len());
            proof {
                assert(rest@ =~= url@.skip(p + 3)) by {
                    reveal_strlit("://");
                }
            }
            let aend = match find_in_chars(&rest, &slash) {
                None => rest.len(),
                Some(e) => e,
            };
            let auth = crate::text::copy_range(&rest, 0, aend);
            proof {
                reveal_strlit("/");
                if spec_find_from(rest@, "/"@, 0) >= 0 {
                    assert(auth@ =~= rest@.take(spec_find_from(rest@, "/"@, 0)));
                } else {
                    assert(auth@ =~= rest@);
                }
            }
            // drop user information before the last `@`
            let hstart2 = match crate::text::rfind_char(&auth, 0, auth.len(), '@') {
                Some(a) => {
                    proof {
                        crate::context::lemma_rfind_char_at(auth@, '@', a as int);
                    }
                    a + 1
                },
                None => {
                    proof {
                        crate::context::lemma_rfind_char_none(auth@, '@');
                    }
                    0
                },
            };
            let h1 = crate::text::copy_range(&auth, hstart2, auth.len());
            proof {
                let a = crate::context::spec_rfind_char(auth@, '@');
                if a < 0 {
                    assert(h1@ =~= auth@);
                } else {
                    assert(h1@ =~= auth@.skip(a + 1));
                }
            }
            // drop a port after the first `:`
            let hend2 = match find_in_chars(&h1, &colon) {
                Some(c) => c,
                None => h1.len(),
            };
            let host = crate::text::copy_range(&h1, 0, hend2);
            proof {
                reveal_strlit(":");
                if spec_find_from(h1@, ":"@, 0) >= 0 {
                    assert(host@ =~= h1@.take(spec_find_from(h1@, ":"@, 0)));
                } else {
                    assert(host@ =~= h1@);
                }
                assert(host@ == spec_url_host(url@));
            }
            let m1 = match find_in_chars(&host, &yt1) {
                Some(_) => true,
                None => false,
            };
            let m2 = match find_in_chars(&host, &yt2) {
                Some(_) => true,
                None => false,
            };
            m1 || m2
        },
    }
}

/// Remove subtitle formatting tags: everything between `<` and `>` is
/// dropped, the rest is kept in order.
pub open spec fn spec_remove_tags(s: Seq<char>, i: int, in_tag: bool) -> Seq<char>
    decreases s.len() - i,
    when 0 <= i
{
    if i >= s.len() {
        Seq::empty()
    } else if in_tag {
        if s[i] == '>' {
            spec_remove_tags(s, i + 1, false)
        } else {
            spec_remove_tags(s, i + 1, true)
        }
    } else {
        if s[i] == '<' {
            spec_remove_tags(s, i + 1, true)
        } else if s[i] == '>' {
            spec_remove_tags(s, i + 1, false)
        } else {
            seq![s[i]] + spec_remove_tags(s, i + 1, false)
        }
    }
}

/// Remove formatting tags (`<c>`, `</c>` and the like) from a subtitle
/// line.
pub fn remove_vtt_tags(text: &str) -> (r: String)
    ensures
        r@ == spec_remove_tags(text@, 0, false),
{
    let cv = chars_vec(text);
    let n = cv.len();
    let mut out = String::new();
    let mut rs: usize = 0;
    let mut i: usize = 0;
    while i < n
        invariant
            rs <= i <= n == cv@.len(),
            cv@ == text@,
            out@ + cv@.subrange(rs as int, i as int) + spec_remove_tags(cv@, i as int, false)
                == spec_remove_tags(cv@, 0, false),
        decreases n - i,
    {
        if cv[i] == '>' {
            out.append(text.substring_char(rs, i));
            proof {
                assert(spec_remove_tags(cv@, i as int, false) == spec_remove_tags(
                    cv@,
                    i + 1,
                    false,
                ));
                assert(out@ + cv@.subrange(i + 1, i + 1) =~= out@);
            }
            rs = i + 1;
            i = i + 1;
        } else if cv[i] == '<' {
            out.append(text.substring_char(rs, i));
            // skip to the closing tag marker
            let mut j: usize = i + 1;
            while j < n && cv[j] != '>'
                invariant
                    i < j <= n == cv@.len(),
                    cv@ == text@,
                    spec_remove_tags(cv@, i + 1, true) == spec_remove_tags(cv@, j as int, true),
                decreases n - j,
            {
                j += 1;
            }
            proof {
                assert(out@ + cv@.subrange(rs as int, i as int) + (seq![cv@[i as int]]
                    + spec_remove_tags(cv@, i + 1, true)) =~= out@ + cv@.subrange(
                    rs as int,
                    i as int,
                ) + seq![cv@[i as int]] + spec_remove_tags(cv@, i + 1, true));
            }
            if j < n {
                proof {
                    assert(spec_remove_tags(cv@, j as int, true) == spec_remove_tags(
                        cv@,
                        j + 1,
                        false,
                    ));
                    assert(out@ + cv@.subrange(rs as int, i as int) + spec_remove_tags(
                        cv@,
                        i as int,
                        false,
                    ) =~= (out@ + cv@.subrange(rs as int, i as int)) + spec_remove_tags(
                        cv@,
                        j + 1,
                        false,
                    ));
                }
                rs = j + 1;
                i = j + 1;
                proof {
                    assert(cv@.subrange(rs as int, i as int) =~= Seq::<char>::empty());
                    assert((out@ + cv@.subrange(rs as int, i as int)) =~= out@);
                }
            } else {
                proof {
                    assert(spec_remove_tags(cv@, j as int, true) =~= Seq::<char>::empty());
                    assert(out@ + cv@.subrange(rs as int, i as int) + spec_remove_tags(
                        cv@,
                        i as int,
                        false,
                    ) =~= (out@ + cv@.subrange(rs as int, i as int)));
                }
                rs = n;
                i = n;
                proof {
                    assert(cv@.subrange(rs as int, i as int) =~= Seq::<char>::empty());
                }
            }
        } else {
            i += 1;
            proof {
                assert(out@ + cv@.subrange(rs as int, i - 1) + (seq![cv@[i - 1]]
                    + spec_remove_tags(cv@, i as int, false)) =~= out@ + cv@.subrange(
                    rs as int,
                    i as int,
                ) + spec_remove_tags(cv@, i as int, false));
            }
        }
    }
    out.append(text.substring_char(rs, n));
    proof {
        assert(spec_remove_tags(cv@, n as int, false) =~= Seq::<char>::empty());
        assert(out@ =~= spec_remove_tags(cv@, 0, false));
    }
    out
}

/// The words of a line joined by single spaces, from the `k`-th word on.
pub open spec fn spec_join_words_from(
    line: Seq<char>,
    ws: Seq<(int, int)>,
    k: int,
    first: bool,
) -> Seq<char>
    decreases ws.len() - k,
    when 0 <= k
{
    if k >= ws.len() {
        Seq::empty()
    } else {
        let piece = line.subrange(ws[k].0, ws[k].1);
        (if first {
            piece
        } else {
            seq![' '] + piece
        }) + spec_join_words_from(line, ws, k + 1, false)
    }
}

/// A line with its inner whitespace runs normalized to single spaces.
pub open spec fn spec_normalize_line(line: Seq<char>) -> Seq<char> {
    spec_join_words_from(line, word_spans_from(line, 0), 0, true)
}

/// One step of the page-text cleanup fold: the line starting at `i`,
/// trimmed, is dropped when blank (collapsing the run to one break) or
/// shorter than three characters, and otherwise appended with its inner
/// whitespace normalized.
pub open spec fn spec_clean_text_from(s: Seq<char>, i: int, out: Seq<char>, prev_nl: bool) -> Seq<
    char,
>
    decreases s.len() - i,
    when 0 <= i
{
    if i >= s.len() {
        out
    } else {
        let j0 = crate::text::line_end(s, i);
        let j = if i <= j0 <= s.len() { j0 } else { s.len() as int };
        let tx = spec_trim(s.subrange(i, j));
        let next = if j < s.len() { j + 1 } else { s.len() as int };
        if tx.len() == 0 {
            if !prev_nl && out.len() > 0 {
                spec_clean_text_from(s, next, out + seq!['\n'], true)
            } else {
                spec_clean_text_from(s, next, out, prev_nl)
            }
        } else if tx.len() < 3 {
            spec_clean_text_from(s, next, out, prev_nl)
        } else {
            let o = if out.len() > 0 && !prev_nl { out + seq!['\n'] } else { out };
            spec_clean_text_from(s, next, o + spec_normalize_line(tx), false)
        }
    }
}

/// The cleaned form of scraped page text.
pub open spec fn spec_clean_text(s: Seq<char>) -> Seq<char> {
    spec_trim(spec_clean_text_from(s, 0, Seq::empty(), false))
}

/// Clean up text scraped from a page: lines are trimmed, blank runs
/// collapse to one line break, lines shorter than three characters are
/// dropped as noise, and runs of whitespace inside a line become single
/// spaces.  The result carries no surrounding whitespace.
pub fn clean_text(text: &str) -> (r: String)
    ensures
        r@ == spec_clean_text(text@),
        spec_trim(r@) == r@,
{
    let cv = chars_vec(text);
    let n = cv.len();
    let mut out = String::new();
    let mut prev_was_newline = false;
    let mut i: usize = 0;
    proof {
        assert(out@ =~= Seq::<char>::empty());
    }
    while i < n
        invariant
            i <= n == cv@.len(),
            cv@ == text@,
            spec_clean_text_from(cv@, 0, Seq::empty(), false) == spec_clean_text_from(
                cv@,
                i as int,
                out@,
                prev_was_newline,
            ),
        decreases n - i,
    {
        let mut j: usize = i;
        while j < n && cv[j] != '\n'
            invariant
                i <= j <= n == cv@.len(),
                crate::text::line_end(cv@, i as int) == crate::text::line_end(cv@, j as int),
            decreases n - j,
        {
            j += 1;
        }
        proof {
            assert(crate::text::line_end(cv@, j as int) == j);
        }
        let (a, b) = trim_bounds_range(&cv, i, j);
        let ghost tx = spec_trim(cv@.subrange(i as int, j as int));
        proof {
            assert(tx == cv@.subrange(a as int, b as int));
        }
        if a < b && b - a >= 3 {
            if out.as_str().unicode_len() > 0 && !prev_was_newline {
                out.append("\n");
                proof {
                    reveal_strlit("\n");
                    assert("\n"@ =~= seq!['\n']);
                }
            }
            // normalize inner whitespace to single spaces
            let lv = copy_range(&cv, a, b);
            proof {
                assert(lv@ == tx);
            }
            let spans = word_spans(&lv);
            let ghost wsv = word_spans_from(lv@, 0);
            let ghost base = out@;
            let mut k: usize = 0;
            while k < spans.len()
                invariant
                    k <= spans@.len(),
                    cv@ == text@,
                    lv@ == tx,
                    tx == cv@.subrange(a as int, b as int),
                    a <= b <= cv@.len(),
                    wsv == word_spans_from(lv@, 0),
                    spans@.map_values(|p: (usize, usize)| (p.0 as int, p.1 as int)) == wsv,
                    forall|q: int| 0 <= q < spans@.len() ==> (#[trigger] spans@[q]).0
                        < spans@[q].1 <= lv@.len(),
                    base + spec_normalize_line(tx) == out@ + spec_join_words_from(
                        lv@,
                        wsv,
                        k as int,
                        k == 0,
                    ),
                decreases spans@.len() - k,
            {
                let (wa, wb) = spans[k];
                proof {
                    assert(spans@.map_values(|p: (usize, usize)| (p.0 as int, p.1 as int))[
                        k as int] == (wa as int, wb as int));
                    assert(lv@.subrange(wa as int, wb as int) =~= cv@.subrange(
                        a + wa,
                        a + wb,
                    ));
                }
                if k > 0 {
                    out.append(" ");
                    proof {
                        reveal_strlit(" ");
                        assert(" "@ =~= seq![' ']);
                    }
                }
                out.append(text.substring_char(a + wa, a + wb));
                k += 1;
            }
            proof {
                assert(spec_join_words_from(lv@, wsv, k as int, k == 0) =~= Seq::<char>::empty());
                assert(out@ + Seq::<char>::empty() =~= out@);
                assert(out@ == base + spec_normalize_line(tx));
            }
            prev_was_newline = false;
        } else if a == b {
            if !prev_was_newline && out.as_str().unicode_len() > 0 {
                out.append("\n");
                prev_was_newline = true;
                proof {
                    reveal_strlit("\n");
                    assert("\n"@ =~= seq!['\n']);
                }
            }
        }
        i = if j < n {
            j + 1
        } else {
            n
        };
    }
    let ov = chars_vec(out.as_str());
    let (ta, tb) = trim_bounds_range(&ov, 0, ov.len());
    proof {
        assert(ov@.subrange(0, ov@.len() as int) =~= ov@);
    }
    let r = out.as_str().substring_char(ta, tb).to_owned();
    proof {
        assert(spec_clean_text_from(cv@, i as int, out@, prev_was_newline) == out@);
        if ta < tb {
            crate::text::lemma_trim_of_trimmed(ov@, ta as int, tb as int);
        } else {
            crate::text::lemma_trim_is_subrange(r@, 0, 0);
            assert(r@ =~= ov@.subrange(ta as int, ta as int));
            assert(r@.subrange(0, 0) =~= r@);
        }
    }
    r
}

/// A subtitle line that is timing or header noise: empty lines,
/// `WEBVTT`/`Kind:`/`Language:` headers, lines holding a timing arrow,
/// and lines made only of digits, colons, dots and spaces.
pub open spec fn spec_is_vtt_noise(line: Seq<char>) -> bool {
    ||| line.len() == 0
    ||| "WEBVTT"@.is_prefix_of(line)
    ||| "Kind:"@.is_prefix_of(line)
    ||| "Language:"@.is_prefix_of(line)
    ||| spec_find_from(line, "-->"@, 0) >= 0
    ||| (forall|k: int|
        0 <= k < line.len() ==> spec_is_ascii_digit(#[trigger] line[k]) || line[k] == ':'
            || line[k] == '.' || line[k] == ' ')
}

fn is_vtt_noise(line: &str) -> (r: bool)
    ensures
        r == spec_is_vtt_noise(line@),
{
    let cv = chars_vec(line);
    let n = cv.len();
    if n == 0 {
        return true;
    }
    let webvtt = chars_vec("WEBVTT");
    let kind = chars_vec("Kind:");
    let lang = chars_vec("Language:");
    let arrow = chars_vec("-->");
    let mut noise = false;
    if crate::text::range_matches(&cv, 0, &webvtt) {
        proof {
            assert(line@.subrange(0, webvtt@.len() as int) =~= webvtt@);
        }
        noise = true;
    }
    if crate::text::range_matches(&cv, 0, &kind) {
        proof {
            assert(line@.subrange(0, kind@.len() as int) =~= kind@);
        }
        noise = true;
    }
    if crate::text::range_matches(&cv, 0, &lang) {
        proof {
            assert(line@.subrange(0, lang@.len() as int) =~= lang@);
        }
        noise = true;
    }
    match find_in_chars(&cv, &arrow) {
        Some(_) => {
            noise = true;
        },
        None => {},
    }
    if noise {
        return true;
    }
    proof {
        if "WEBVTT"@.is_prefix_of(line@) {
            assert(crate::text::spec_matches_at(cv@, 0, webvtt@)) by {
                assert(line@.subrange(0, webvtt@.len() as int) =~= webvtt@);
            }
            assert(false);
        }
        if "Kind:"@.is_prefix_of(line@) {
            assert(crate::text::spec_matches_at(cv@, 0, kind@)) by {
                assert(line@.subrange(0, kind@.len() as int) =~= kind@);
            }
            assert(false);
        }
        if "Language:"@.is_prefix_of(line@) {
            assert(crate::text::spec_matches_at(cv@, 0, lang@)) by {
                assert(line@.subrange(0, lang@.len() as int) =~= lang@);
            }
            assert(false);
        }
    }
    let mut all_timing = true;
    let mut k: usize = 0;
    while k < n
        invariant
            k <= n == cv@.len(),
            cv@ == line@,
            all_timing == (forall|q: int|
                0 <= q < k ==> spec_is_ascii_digit(#[trigger] cv@[q]) || cv@[q] == ':' || cv@[q]
                    == '.' || cv@[q] == ' '),
        decreases n - k,
    {
        let c = cv[k];
        if !(is_ascii_digit_char(c) || c == ':' || c == '.' || c == ' ') {
            all_timing = false;
        }
        k += 1;
    }
    all_timing
}

/// One step of the subtitle fold: the line starting at `i`, trimmed, is
/// dropped as noise, stripped of tags and trimmed again, dropped when seen
/// before, and otherwise appended after a single space.
pub open spec fn spec_parse_vtt_from(
    s: Seq<char>,
    i: int,
    out: Seq<char>,
    seen: Seq<Seq<char>>,
) -> Seq<char>
    decreases s.len() - i,
    when 0 <= i
{
    if i >= s.len() {
        out
    } else {
        let j0 = crate::text::line_end(s, i);
        let j = if i <= j0 <= s.len() { j0 } else { s.len() as int };
        let tx = spec_trim(s.subrange(i, j));
        let next = if j < s.len() { j + 1 } else { s.len() as int };
        if spec_is_vtt_noise(tx) {
            spec_parse_vtt_from(s, next, out, seen)
        } else {
            let cl = spec_trim(spec_remove_tags(tx, 0, false));
            if cl.len() == 0 || seen.contains(cl) {
                spec_parse_vtt_from(s, next, out, seen)
            } else {
                let o = if out.len() > 0 { out + seq![' '] } else { out };
                spec_parse_vtt_from(s, next, o + cl, seen.push(cl))
            }
        }
    }
}

/// The prose form of subtitle text.
pub open spec fn spec_parse_vtt(s: Seq<char>) -> Seq<char> {
    spec_trim(spec_parse_vtt_from(s, 0, Seq::empty(), Seq::empty()))
}

/// Turn subtitle text into plain prose: header and timing lines are
/// dropped, formatting tags removed, repeated lines (auto-generated
/// subtitles repeat themselves) kept once, and the surviving lines joined
/// with single spaces.  The result carries no surrounding whitespace.
pub fn parse_vtt(vtt: &str) -> (r: String)
    ensures
        r@ == spec_parse_vtt(vtt@),
        spec_trim(r@) == r@,
{
    let cv = chars_vec(vtt);
    let n = cv.len();
    let mut out = String::new();
    let mut seen: Vec<String> = Vec::new();
    let mut i: usize = 0;
    proof {
        assert(out@ =~= Seq::<char>::empty());
        assert(seen@.map_values(|x: String| x@) =~= Seq::<Seq<char>>::empty());
    }
    while i < n
        invariant
            i <= n == cv@.len(),
            cv@ == vtt@,
            spec_parse_vtt_from(cv@, 0, Seq::empty(), Seq::empty()) == spec_parse_vtt_from(
                cv@,
                i as int,
                out@,
                seen@.map_values(|x: String| x@),
            ),
        decreases n - i,
    {
        let mut j: usize = i;
        while j < n && cv[j] != '\n'
            invariant
                i <= j <= n == cv@.len(),
                crate::text::line_end(cv@, i as int) == crate::text::line_end(cv@, j as int),
            decreases n - j,
        {
            j += 1;
        }
        proof {
            assert(crate::text::line_end(cv@, j as int) == j);
        }
        let (a, b) = trim_bounds_range(&cv, i, j);
        let ghost tx = spec_trim(cv@.subrange(i as int, j as int));
        proof {
            assert(tx == cv@.subrange(a as int, b as int));
        }
        let line = vtt.substring_char(a, b).to_owned();
        proof {
            assert(line@ == tx);
        }
        if !is_vtt_noise(line.as_str()) {
            let untagged = remove_vtt_tags(line.as_str());
            let uv = chars_vec(untagged.as_str());
            let (ua, ub) = trim_bounds_range(&uv, 0, uv.len());
            proof {
                assert(uv@.subrange(0, uv@.len() as int) =~= uv@);
            }
            let ghost cl = spec_trim(spec_remove_tags(tx, 0, false));
            if ua < ub {
                let clean_line = untagged.as_str().substring_char(ua, ub).to_owned();
                proof {
                    assert(clean_line@ == cl);
                }
                // keep each distinct line once
                let mut dup = false;
                let mut q: usize = 0;
                while q < seen.len()
                    invariant
                        q <= seen@.len(),
                        clean_line@ == cl,
                        dup == (exists|w: int| 0 <= w < q && (#[trigger] seen@[w])@ == cl),
                    decreases seen@.len() - q,
                {
                    let sv = chars_vec(seen[q].as_str());
                    let clv = chars_vec(clean_line.as_str());
                    if crate::text::chars_eq(&sv, &clv) {
                        dup = true;
                    }
                    q += 1;
                }
                proof {
                    let sm = seen@.map_values(|x: String| x@);
                    if dup {
                        let w = choose|w: int| 0 <= w < seen@.len() && (#[trigger] seen@[w])@ == cl;
                        assert(sm[w] == cl);
                        assert(sm.contains(cl));
                    } else {
                        if sm.contains(cl) {
                            let w = choose|w: int| 0 <= w < sm.len() && sm[w] == cl;
                            assert(seen@[w]@ == cl);
                            assert(false);
                        }
                    }
                }
                if !dup {
                    if out.as_str().unicode_len() > 0 {
                        out.append(" ");
                        proof {
                            reveal_strlit(" ");
                            assert(" "@ =~= seq![' ']);
                        }
                    }
                    out.append(clean_line.as_str());
                    let ghost pre_seen = seen@;
                    seen.push(clean_line);
                    proof {
                        assert(seen@.map_values(|x: String| x@) =~= pre_seen.map_values(
                            |x: String| x@,
                        ).push(cl));
                    }
                }
            } else {
                proof {
                    assert(cl.len() == 0) by {
                        assert(cl =~= uv@.subrange(ua as int, ua as int));
                    }
                }
            }
        }
        i = if j < n {
            j + 1
        } else {
            n
        };
    }
    let ov = chars_vec(out.as_str());
    let (ta, tb) = trim_bounds_range(&ov, 0, ov.len());
    proof {
        assert(ov@.subrange(0, ov@.len() as int) =~= ov@);
    }
    let r = out.as_str().substring_char(ta, tb).to_owned();
    proof {
        assert(spec_parse_vtt_from(cv@, i as int, out@, seen@.map_values(|x: String| x@))
            == out@);
        if ta < tb {
            crate::text::lemma_trim_of_trimmed(ov@, ta as int, tb as int);
        } else {
            crate::text::lemma_trim_is_subrange(r@, 0, 0);
            assert(r@ =~= ov@.subrange(ta as int, ta as int));
            assert(r@.subrange(0, 0) =~= r@);
        }
    }
    r
}

} // verus!
