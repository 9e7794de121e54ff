//! Query enhancement and content-level deduplication.
//!
//! `enhance_query` rewrites a natural-language question into a
//! search-optimized string: filler prefixes and suffixes are stripped and
//! numeric references (exercise, chapter, page numbers and the like) are
//! appended so keyword search can match them exactly.  `chunks_overlap` and
//! `deduplicate_chunks` measure word-set Jaccard similarity and drop
//! near-identical chunks, keeping the first occurrence.
//!
//! Case folding and the token-character class are deliberately ASCII: the
//! filler lists and reference keywords are ASCII, so matching is unchanged,
//! and word tokens keep accented characters instead of stripping them.

use vstd::prelude::*;

use crate::text::{
    chars_eq, chars_vec, copy_range, is_ascii_digit_char, map_lower, range_matches, skip_ws,
    spec_is_ascii_alnum, spec_is_ascii_digit, spec_lower, spec_matches_at, spec_trim,
    spec_trim_start, spec_words, spec_drop_trailing, trim_bounds_range, word_spans,
    lemma_lower_subrange, lemma_trim_start_is_subrange, lemma_drop_trailing_is_subrange,
    word_spans_from,
};

verus! {

pub const N_FILLER_PREFIXES: usize = 37;

/// Filler prefixes stripped from queries, most specific first.
pub open spec fn spec_filler_prefix(i: int) -> Seq<char> {
    if i == 0 { "can you give me the answer for"@ }
    else if i == 1 { "can you give me the answer to"@ }
    else if i == 2 { "can you give me"@ }
    else if i == 3 { "can you help me with"@ }
    else if i == 4 { "can you explain"@ }
    else if i == 5 { "could you explain"@ }
    else if i == 6 { "could you help me with"@ }
    else if i == 7 { "i need help with"@ }
    else if i == 8 { "i need to understand"@ }
    else if i == 9 { "i want to know about"@ }
    else if i == 10 { "please help me with"@ }
    else if i == 11 { "please explain"@ }
    else if i == 12 { "what is the"@ }
    else if i == 13 { "what are the"@ }
    else if i == 14 { "what is"@ }
    else if i == 15 { "what are"@ }
    else if i == 16 { "how does the"@ }
    else if i == 17 { "how does"@ }
    else if i == 18 { "how do"@ }
    else if i == 19 { "how is"@ }
    else if i == 20 { "explain the"@ }
    else if i == 21 { "explain"@ }
    else if i == 22 { "tell me about"@ }
    else if i == 23 { "describe the"@ }
    else if i == 24 { "describe"@ }
    else if i == 25 { "define the"@ }
    else if i == 26 { "define"@ }
    else if i == 27 { "why does"@ }
    else if i == 28 { "why is"@ }
    else if i == 29 { "why do"@ }
    else if i == 30 { "when does"@ }
    else if i == 31 { "when is"@ }
    else if i == 32 { "where does"@ }
    else if i == 33 { "where is"@ }
    else if i == 34 { "give me the answer for"@ }
    else if i == 35 { "give me the answer to"@ }
    else { "give me"@ }
}

fn filler_prefix_at(i: usize) -> (r: &'static str)
    requires
        i < N_FILLER_PREFIXES,
    ensures
        r@ == spec_filler_prefix(i as int),
{
    match i {
        0 => "can you give me the answer for",
        1 => "can you give me the answer to",
        2 => "can you give me",
        3 => "can you help me with",
        4 => "can you explain",
        5 => "could you explain",
        6 => "could you help me with",
        7 => "i need help with",
        8 => "i need to understand",
        9 => "i want to know about",
        10 => "please help me with",
        11 => "please explain",
        12 => "what is the",
        13 => "what are the",
        14 => "what is",
        15 => "what are",
        16 => "how does the",
        17 => "how does",
        18 => "how do",
        19 => "how is",
        20 => "explain the",
        21 => "explain",
        22 => "tell me about",
        23 => "describe the",
        24 => "describe",
        25 => "define the",
        26 => "define",
        27 => "why does",
        28 => "why is",
        29 => "why do",
        30 => "when does",
        31 => "when is",
        32 => "where does",
        33 => "where is",
        34 => "give me the answer for",
        35 => "give me the answer to",
        _ => "give me",
    }
}

pub const N_TRAILING_FILLERS: usize = 5;

/// Filler phrases stripped from the end of a query.
pub open spec fn spec_trailing_filler(i: int) -> Seq<char> {
    if i == 0 { "and all its sub questions"@ }
    else if i == 1 { "and all sub questions"@ }
    else if i == 2 { "and its sub questions"@ }
    else if i == 3 { "and sub questions"@ }
    else { "and all the sub questions"@ }
}

fn trailing_filler_at(i: usize) -> (r: &'static str)
    requires
        i < N_TRAILING_FILLERS,
    ensures
        r@ == spec_trailing_filler(i as int),
{
    match i {
        0 => "and all its sub questions",
        1 => "and all sub questions",
        2 => "and its sub questions",
        3 => "and sub questions",
        _ => "and all the sub questions",
    }
}

pub const N_REF_KEYWORDS: usize = 16;

/// Keywords whose following numeric token is collected as a reference.
pub open spec fn spec_ref_keyword(i: int) -> Seq<char> {
    if i == 0 { "exercise"@ }
    else if i == 1 { "exercises"@ }
    else if i == 2 { "chapter"@ }
    else if i == 3 { "section"@ }
    else if i == 4 { "page"@ }
    else if i == 5 { "problem"@ }
    else if i == 6 { "problems"@ }
    else if i == 7 { "question"@ }
    else if i == 8 { "questions"@ }
    else if i == 9 { "figure"@ }
    else if i == 10 { "theorem"@ }
    else if i == 11 { "definition"@ }
    else if i == 12 { "example"@ }
    else if i == 13 { "lemma"@ }
    else if i == 14 { "corollary"@ }
    else { "proposition"@ }
}

fn ref_keyword_at(i: usize) -> (r: &'static str)
    requires
        i < N_REF_KEYWORDS,
    ensures
        r@ == spec_ref_keyword(i as int),
{
    match i {
        0 => "exercise",
        1 => "exercises",
        2 => "chapter",
        3 => "section",
        4 => "page",
        5 => "problem",
        6 => "problems",
        7 => "question",
        8 => "questions",
        9 => "figure",
        10 => "theorem",
        11 => "definition",
        12 => "example",
        13 => "lemma",
        14 => "corollary",
        _ => "proposition",
    }
}

/// The raw query trimmed, with trailing question marks removed.
pub open spec fn spec_clean_query(raw: Seq<char>) -> Seq<char> {
    spec_trim(spec_drop_trailing(spec_trim(raw), '?'))
}

/// The first matching filler prefix (checked in order from `i`) removed,
/// provided a non-empty remainder is left.
pub open spec fn spec_strip_prefix_from(t: Seq<char>, i: int) -> Seq<char>
    decreases N_FILLER_PREFIXES - i,
    when 0 <= i
{
    if i >= N_FILLER_PREFIXES {
        t
    } else {
        let p = spec_filler_prefix(i);
        if p.is_prefix_of(spec_lower(t)) && spec_trim_start(t.skip(p.len() as int)).len() > 0 {
            spec_trim_start(t.skip(p.len() as int))
        } else {
            spec_strip_prefix_from(t, i + 1)
        }
    }
}

/// Trailing filler phrases removed, each checked in turn against the
/// remaining text.
pub open spec fn spec_strip_suffixes_from(t: Seq<char>, i: int) -> Seq<char>
    decreases N_TRAILING_FILLERS - i,
    when 0 <= i
{
    if i >= N_TRAILING_FILLERS {
        t
    } else {
        let s = spec_trailing_filler(i);
        let t2 = if s.len() <= t.len() && s.is_suffix_of(spec_lower(t)) {
            spec_trim(t.take(t.len() - s.len()))
        } else {
            t
        };
        spec_strip_suffixes_from(t2, i + 1)
    }
}

/// First index at or after `i` where `needle` occurs in `hay`, or -1.
pub open spec fn spec_find_from(hay: Seq<char>, needle: Seq<char>, i: int) -> int
    decreases hay.len() + 1 - i,
    when 0 <= i
{
    if i + needle.len() > hay.len() {
        -1
    } else if hay.subrange(i, i + needle.len()) == needle {
        i
    } else {
        spec_find_from(hay, needle, i + 1)
    }
}

pub open spec fn spec_specifically() -> Seq<char> {
    " specifically"@
}

/// The standalone filler word removed: if nothing but whitespace follows
/// it, everything from it on is dropped; otherwise only the word itself is
/// dropped and the remainder is kept after a single space.
pub open spec fn spec_remove_specifically(t: Seq<char>) -> Seq<char> {
    let p = spec_find_from(spec_lower(t), spec_specifically(), 0);
    if p < 0 {
        t
    } else {
        let after = spec_trim(t.skip(p + spec_specifically().len() as int));
        let before = spec_trim(t.take(p));
        if after.len() == 0 {
            before
        } else {
            before + seq![' '] + after
        }
    }
}

pub open spec fn spec_is_ref_keyword(w: Seq<char>) -> bool {
    exists|j: int| 0 <= j < N_REF_KEYWORDS && spec_ref_keyword(j) == w
}

pub open spec fn spec_has_digit(w: Seq<char>) -> bool {
    exists|j: int| 0 <= j < w.len() && spec_is_ascii_digit(w[j])
}

/// The numeric reference tokens of the cleaned query: every word that
/// directly follows a reference keyword and contains a digit, lower-cased,
/// in order.
pub open spec fn spec_refs_from(words: Seq<Seq<char>>, i: int) -> Seq<Seq<char>>
    decreases words.len() - i,
    when 0 <= i
{
    if i + 1 >= words.len() {
        Seq::empty()
    } else if spec_is_ref_keyword(spec_lower(words[i])) && spec_has_digit(words[i + 1]) {
        seq![spec_lower(words[i + 1])] + spec_refs_from(words, i + 1)
    } else {
        spec_refs_from(words, i + 1)
    }
}

pub open spec fn spec_refs(t: Seq<char>) -> Seq<Seq<char>> {
    spec_refs_from(spec_words(t), 0)
}

/// The cleaned query with the collected references appended,
/// space-separated.
pub open spec fn spec_append_refs_from(t: Seq<char>, refs: Seq<Seq<char>>, i: int) -> Seq<char>
    decreases refs.len() - i,
    when 0 <= i
{
    if i >= refs.len() {
        t
    } else {
        spec_append_refs_from(t + seq![' '] + refs[i], refs, i + 1)
    }
}

/// The complete query enhancement pipeline.
pub open spec fn spec_enhance(raw: Seq<char>) -> Seq<char> {
    let c = spec_remove_specifically(
        spec_strip_suffixes_from(spec_strip_prefix_from(spec_clean_query(raw), 0), 0),
    );
    spec_append_refs_from(c, spec_refs(c), 0)
}

/// Strips the first matching filler prefix from `rc[lo..hi)`, if the
/// remainder is non-empty; returns the resulting span.
fn strip_prefix_span(rc: &Vec<char>, rl: &Vec<char>, lo: usize, hi: usize) -> (r: (usize, usize))
    requires
        lo <= hi <= rc@.len(),
        rl@ == spec_lower(rc@),
    ensures
        lo <= r.0 <= r.1 <= hi,
        rc@.subrange(r.0 as int, r.1 as int) == spec_strip_prefix_from(
            rc@.subrange(lo as int, hi as int),
            0,
        ),
{
    let ghost t = rc@.subrange(lo as int, hi as int);
    proof {
        lemma_lower_subrange(rc@, lo as int, hi as int);
    }
    let mut i: usize = 0;
    while i < N_FILLER_PREFIXES
        invariant
            0 <= i <= N_FILLER_PREFIXES,
            lo <= hi <= rc@.len(),
            rl@ == spec_lower(rc@),
            t == rc@.subrange(lo as int, hi as int),
            spec_lower(t) == rl@.subrange(lo as int, hi as int),
            spec_strip_prefix_from(t, 0) == spec_strip_prefix_from(t, i as int),
        decreases N_FILLER_PREFIXES - i,
    {
        let p = chars_vec(filler_prefix_at(i));
        if p.len() <= hi - lo && range_matches(rl, lo, &p) {
            proof {
                assert(rl@.subrange(lo as int, lo + p@.len()) =~= spec_lower(t).subrange(
                    0,
                    p@.len() as int,
                ));
                assert(p@.is_prefix_of(spec_lower(t)));
            }
            let a = skip_ws(rc, lo + p.len(), hi);
            proof {
                let sk = t.skip(p@.len() as int);
                assert(sk =~= rc@.subrange(lo + p@.len(), hi as int));
                lemma_trim_start_is_subrange(sk, a - (lo + p@.len()));
                assert(spec_trim_start(sk) =~= rc@.subrange(a as int, hi as int));
            }
            if a < hi {
                return (a, hi);
            } else {
                proof {
                    assert(spec_trim_start(t.skip(spec_filler_prefix(i as int).len() as int)).len()
                        == 0);
                }
                i += 1;
            }
        } else {
            proof {
                let pl = spec_filler_prefix(i as int);
                if pl.len() <= hi - lo {
                    assert(!spec_matches_at(rl@, lo as int, pl));
                    if pl.is_prefix_of(spec_lower(t)) {
                        assert(rl@.subrange(lo as int, lo + pl.len()) =~= spec_lower(t).subrange(
                            0,
                            pl.len() as int,
                        ));
                        assert(false);
                    }
                } else {
                    assert(!pl.is_prefix_of(spec_lower(t)));
                }
            }
            i += 1;
        }
    }
    (lo, hi)
}

/// Strips trailing filler phrases from `rc[lo..hi)`, trimming after each
/// strip; returns the resulting span.
fn strip_suffixes_span(rc: &Vec<char>, rl: &Vec<char>, lo: usize, hi: usize) -> (r: (
    usize,
    usize,
))
    requires
        lo <= hi <= rc@.len(),
        rl@ == spec_lower(rc@),
    ensures
        lo <= r.0 <= r.1 <= hi,
        rc@.subrange(r.0 as int, r.1 as int) == spec_strip_suffixes_from(
            rc@.subrange(lo as int, hi as int),
            0,
        ),
{
    let mut clo: usize = lo;
    let mut chi: usize = hi;
    let mut i: usize = 0;
    while i < N_TRAILING_FILLERS
        invariant
            0 <= i <= N_TRAILING_FILLERS,
            lo <= clo <= chi <= hi <= rc@.len(),
            rl@ == spec_lower(rc@),
            spec_strip_suffixes_from(rc@.subrange(lo as int, hi as int), 0)
                == spec_strip_suffixes_from(rc@.subrange(clo as int, chi as int), i as int),
        decreases N_TRAILING_FILLERS - i,
    {
        let ghost cur = rc@.subrange(clo as int, chi as int);
        proof {
            lemma_lower_subrange(rc@, clo as int, chi as int);
        }
        let s = chars_vec(trailing_filler_at(i));
        if s.len() <= chi - clo && range_matches(rl, chi - s.len(), &s) {
            proof {
                assert(rl@.subrange(chi - s@.len(), chi as int) =~= spec_lower(cur).subrange(
                    cur.len() - s@.len(),
                    cur.len() as int,
                ));
                assert(s@.is_suffix_of(spec_lower(cur)));
            }
            let (ta, tb) = trim_bounds_range(rc, clo, chi - s.len());
            proof {
                assert(cur.take(cur.len() - s@.len()) =~= rc@.subrange(
                    clo as int,
                    chi - s@.len(),
                ));
            }
            clo = ta;
            chi = tb;
        } else {
            proof {
                let sl = spec_trailing_filler(i as int);
                if sl.len() <= chi - clo {
                    assert(!spec_matches_at(rl@, chi - sl.len(), sl));
                    if sl.is_suffix_of(spec_lower(cur)) {
                        assert(rl@.subrange(chi - sl.len(), chi as int) =~= spec_lower(
                            cur,
                        ).subrange(cur.len() - sl.len(), cur.len() as int));
                        assert(false);
                    }
                }
            }
        }
        i += 1;
    }
    (clo, chi)
}

/// First occurrence of `needle` in `hay[lo..hi)`, as an absolute index.
fn find_in_range(hay: &Vec<char>, lo: usize, hi: usize, needle: &Vec<char>) -> (r: Option<usize>)
    requires
        lo <= hi <= hay@.len(),
    ensures
        match r {
            Some(p) => lo <= p && p + needle@.len() <= hi && spec_find_from(
                hay@.subrange(lo as int, hi as int),
                needle@,
                0,
            ) == p - lo,
            None => spec_find_from(hay@.subrange(lo as int, hi as int), needle@, 0) == -1,
        },
{
    let ghost sub = hay@.subrange(lo as int, hi as int);
    let mut i: usize = lo;
    while i <= hi && needle.len() <= hi - i
        invariant
            lo <= i,
            i <= hi <= hay@.len(),
            sub == hay@.subrange(lo as int, hi as int),
            spec_find_from(sub, needle@, 0) == spec_find_from(sub, needle@, i - lo),
        decreases hi - i,
    {
        if range_matches(hay, i, needle) {
            proof {
                assert(sub.subrange(i - lo, i - lo + needle@.len()) =~= hay@.subrange(
                    i as int,
                    i + needle@.len(),
                ));
                assert(spec_find_from(sub, needle@, i - lo) == i - lo);
            }
            return Some(i);
        }
        proof {
            assert(sub.subrange(i - lo, i - lo + needle@.len()) =~= hay@.subrange(
                i as int,
                i + needle@.len(),
            ));
            if needle@.len() == 0 {
                assert(hay@.subrange(i as int, i as int) =~= needle@);
                assert(false);
            }
            assert(spec_find_from(sub, needle@, i - lo) == spec_find_from(
                sub,
                needle@,
                i - lo + 1,
            ));
        }
        i += 1;
    }
    proof {
        assert(spec_find_from(sub, needle@, i - lo) == -1);
    }
    None
}

/// First occurrence of `needle` anywhere in `hay`.
pub fn find_in_chars(hay: &Vec<char>, needle: &Vec<char>) -> (r: Option<usize>)
    ensures
        match r {
            Some(p) => p + needle@.len() <= hay@.len() && spec_find_from(hay@, needle@, 0)
                == p as int,
            None => spec_find_from(hay@, needle@, 0) == -1,
        },
{
    let n = hay.len();
    proof {
        assert(hay@.subrange(0, n as int) =~= hay@);
    }
    find_in_range(hay, 0, n, needle)
}

/// The cleaned query after the standalone-filler step: one raw span, or two
/// spans joined by a single space.
struct CleanedSpans {
    b_lo: usize,
    b_hi: usize,
    a_lo: usize,
    a_hi: usize,
    two: bool,
}

fn remove_specifically_span(rc: &Vec<char>, rl: &Vec<char>, lo: usize, hi: usize) -> (r:
    CleanedSpans)
    requires
        lo <= hi <= rc@.len(),
        rl@ == spec_lower(rc@),
    ensures
        r.b_lo <= r.b_hi <= rc@.len(),
        r.a_lo <= r.a_hi <= rc@.len(),
        !r.two ==> rc@.subrange(r.b_lo as int, r.b_hi as int) == spec_remove_specifically(
            rc@.subrange(lo as int, hi as int),
        ),
        r.two ==> spec_remove_specifically(rc@.subrange(lo as int, hi as int)) == rc@.subrange(
            r.b_lo as int,
            r.b_hi as int,
        ) + seq![' '] + rc@.subrange(r.a_lo as int, r.a_hi as int),
        r.two ==> r.a_lo < r.a_hi,
{
    let ghost cur = rc@.subrange(lo as int, hi as int);
    proof {
        lemma_lower_subrange(rc@, lo as int, hi as int);
    }
    let needle = chars_vec(" specifically");
    match find_in_range(rl, lo, hi, &needle) {
        None => {
            proof {
                assert(spec_find_from(spec_lower(cur), spec_specifically(), 0) == -1);
            }
            CleanedSpans { b_lo: lo, b_hi: hi, a_lo: lo, a_hi: lo, two: false }
        },
        Some(p) => {
            proof {
                assert(spec_find_from(spec_lower(cur), spec_specifically(), 0) == p - lo);
            }
            let (ba, bb) = trim_bounds_range(rc, lo, p);
            let (aa, ab) = trim_bounds_range(rc, p + needle.len(), hi);
            proof {
                let pos = p - lo;
                assert(cur.take(pos) =~= rc@.subrange(lo as int, p as int));
                assert(cur.skip(pos + spec_specifically().len() as int) =~= rc@.subrange(
                    p + needle@.len(),
                    hi as int,
                ));
            }
            if aa < ab {
                CleanedSpans { b_lo: ba, b_hi: bb, a_lo: aa, a_hi: ab, two: true }
            } else {
                CleanedSpans { b_lo: ba, b_hi: bb, a_lo: aa, a_hi: aa, two: false }
            }
        },
    }
}

/// Whether the lower-cased word `cl[ka..kb)` is one of the reference
/// keywords.
fn is_ref_keyword_range(cl: &Vec<char>, ka: usize, kb: usize) -> (r: bool)
    requires
        ka <= kb <= cl@.len(),
    ensures
        r == spec_is_ref_keyword(cl@.subrange(ka as int, kb as int)),
{
    let ghost word = cl@.subrange(ka as int, kb as int);
    let mut j: usize = 0;
    while j < N_REF_KEYWORDS
        invariant
            j <= N_REF_KEYWORDS,
            ka <= kb <= cl@.len(),
            word == cl@.subrange(ka as int, kb as int),
            forall|q: int| 0 <= q < j ==> spec_ref_keyword(q) != word,
        decreases N_REF_KEYWORDS - j,
    {
        let kw = chars_vec(ref_keyword_at(j));
        if kw.len() == kb - ka && range_matches(cl, ka, &kw) {
            proof {
                assert(cl@.subrange(ka as int, ka + kw@.len()) =~= word);
            }
            return true;
        }
        proof {
            let kwl = spec_ref_keyword(j as int);
            if kwl == word {
                assert(cl@.subrange(ka as int, ka + kwl.len()) =~= word);
                assert(false);
            }
        }
        j += 1;
    }
    false
}

/// Whether `cv[na..nb)` contains an ASCII digit.
fn has_digit_range(cv: &Vec<char>, na: usize, nb: usize) -> (r: bool)
    requires
        na <= nb <= cv@.len(),
    ensures
        r == spec_has_digit(cv@.subrange(na as int, nb as int)),
{
    let ghost word = cv@.subrange(na as int, nb as int);
    let mut d: usize = na;
    while d < nb
        invariant
            na <= d <= nb <= cv@.len(),
            word == cv@.subrange(na as int, nb as int),
            forall|q: int| na <= q < d ==> !spec_is_ascii_digit(cv@[q]),
        decreases nb - d,
    {
        if is_ascii_digit_char(cv[d]) {
            proof {
                assert(word[d - na] == cv@[d as int]);
            }
            return true;
        }
        d += 1;
    }
    proof {
        if spec_has_digit(word) {
            let q = choose|q: int| 0 <= q < word.len() && spec_is_ascii_digit(#[trigger] word[q]);
            assert(word[q] == cv@[na + q]);
            assert(false);
        }
    }
    false
}

/// Enhance a raw query for retrieval: trim it, drop trailing question
/// marks, strip filler prefixes, suffixes and the standalone filler word,
/// then append any numeric reference tokens so keyword search can match
/// them exactly.
#[verifier::rlimit(60)]
pub fn enhance_query(raw: &str) -> (r: String)
    ensures
        r@ == spec_enhance(raw@),
{
    let rc = chars_vec(raw);
    let rl = map_lower(&rc);
    let n = rc.len();

    // trim, drop trailing '?', trim again
    let (a1, b1) = trim_bounds_range(&rc, 0, n);
    proof {
        assert(rc@.subrange(0, n as int) =~= rc@);
    }
    let mut b2 = b1;
    while b2 > a1 && rc[b2 - 1] == '?'
        invariant
            a1 <= b2 <= b1 <= n == rc@.len(),
            forall|i: int| b2 <= i < b1 ==> rc@[i] == '?',
        decreases b2,
    {
        b2 -= 1;
    }
    proof {
        let t1 = rc@.subrange(a1 as int, b1 as int);
        lemma_drop_trailing_is_subrange(t1, '?', b2 - a1);
        assert(t1.subrange(0, b2 - a1) =~= rc@.subrange(a1 as int, b2 as int));
    }
    let (a3, b3) = trim_bounds_range(&rc, a1, b2);
    proof {
        assert(rc@.subrange(a3 as int, b3 as int) == spec_clean_query(raw@));
    }

    // strip filler prefixes and suffixes, remove the standalone filler word
    let (c1lo, c1hi) = strip_prefix_span(&rc, &rl, a3, b3);
    let (c2lo, c2hi) = strip_suffixes_span(&rc, &rl, c1lo, c1hi);
    let sp = remove_specifically_span(&rc, &rl, c2lo, c2hi);
    let ghost cseq = spec_remove_specifically(
        spec_strip_suffixes_from(spec_strip_prefix_from(spec_clean_query(raw@), 0), 0),
    );

    // materialize the cleaned query
    let mut cv: Vec<char> = copy_range(&rc, sp.b_lo, sp.b_hi);
    let mut out: String = raw.substring_char(sp.b_lo, sp.b_hi).to_owned();
    if sp.two {
        cv.push(' ');
        let mut k: usize = sp.a_lo;
        while k < sp.a_hi
            invariant
                sp.a_lo <= k <= sp.a_hi <= rc@.len(),
                sp.b_lo <= sp.b_hi <= rc@.len(),
                cv@ =~= rc@.subrange(sp.b_lo as int, sp.b_hi as int) + seq![' ']
                    + rc@.subrange(sp.a_lo as int, k as int),
            decreases sp.a_hi - k,
        {
            cv.push(rc[k]);
            k += 1;
            proof {
                assert(cv@ =~= rc@.subrange(sp.b_lo as int, sp.b_hi as int) + seq![' ']
                    + rc@.subrange(sp.a_lo as int, k as int));
            }
        }
        out.append(" ");
        out.append(raw.substring_char(sp.a_lo, sp.a_hi));
        proof {
            reveal_strlit(" ");
            assert(" "@ =~= seq![' ']);
        }
    }
    proof {
        assert(cv@ == cseq);
        assert(out@ == cseq);
    }

    // collect numeric reference tokens
    let spans = word_spans(&cv);
    let cl = map_lower(&cv);
    let ghost words = spec_words(cv@);
    proof {
        assert(words.len() == spans@.len());
    }
    let cbase = out.clone();
    let mut refs: Vec<(usize, usize)> = Vec::new();
    let nspans = spans.len();
    let mut w: usize = 0;
    while nspans - w > 1
        invariant
            w <= nspans,
            nspans == spans@.len(),
            cv@ == cseq,
            cl@ == spec_lower(cv@),
            words == spec_words(cv@),
            words.len() == spans@.len(),
            spans@.map_values(|p: (usize, usize)| (p.0 as int, p.1 as int)) == word_spans_from(
                cv@,
                0,
            ),
            forall|q: int| 0 <= q < spans@.len() ==> (#[trigger] spans@[q]).0 < spans@[q].1
                <= cv@.len(),
            forall|q: int| 0 <= q < refs@.len() ==> (#[trigger] refs@[q]).0 <= refs@[q].1
                <= cv@.len(),
            spec_refs(cseq) == refs@.map_values(
                |p: (usize, usize)| spec_lower(cv@.subrange(p.0 as int, p.1 as int)),
            ) + spec_refs_from(words, w as int),
        decreases nspans - w,
    {
        let ghost pre = refs@;
        let (ka, kb) = spans[w];
        let (na, nb) = spans[w + 1];
        proof {
            assert(spans@.map_values(|p: (usize, usize)| (p.0 as int, p.1 as int))[w as int]
                == (ka as int, kb as int));
            assert(words[w as int] == cv@.subrange(ka as int, kb as int));
            assert(spans@.map_values(|p: (usize, usize)| (p.0 as int, p.1 as int))[w + 1]
                == (na as int, nb as int));
            assert(words[w + 1] == cv@.subrange(na as int, nb as int));
            lemma_lower_subrange(cv@, ka as int, kb as int);
        }
        let is_kw = is_ref_keyword_range(&cl, ka, kb);
        let has_digit = has_digit_range(&cv, na, nb);
        proof {
            assert(cl@.subrange(ka as int, kb as int) == spec_lower(words[w as int]));
        }
        if is_kw && has_digit {
            refs.push((na, nb));
            proof {
                assert(refs@.map_values(
                    |p: (usize, usize)| spec_lower(cv@.subrange(p.0 as int, p.1 as int)),
                ) =~= pre.map_values(
                    |p: (usize, usize)| spec_lower(cv@.subrange(p.0 as int, p.1 as int)),
                ) + seq![spec_lower(cv@.subrange(na as int, nb as int))]);
                assert(spec_refs_from(words, w as int) == seq![spec_lower(words[w + 1])]
                    + spec_refs_from(words, w + 1));
            }
        } else {
            proof {
                assert(spec_refs_from(words, w as int) == spec_refs_from(words, w + 1));
            }
        }
        w += 1;
    }
    proof {
        assert(spec_refs_from(words, w as int) =~= Seq::<Seq<char>>::empty());
        assert(spec_refs(cseq) =~= refs@.map_values(
            |p: (usize, usize)| spec_lower(cv@.subrange(p.0 as int, p.1 as int)),
        ));
    }

    // append the references, lower-cased
    let ghost rseq = spec_refs(cseq);
    let mut k: usize = 0;
    while k < refs.len()
        invariant
            k <= refs@.len(),
            cbase@ == cv@,
            cv@ == cseq,
            forall|q: int| 0 <= q < refs@.len() ==> (#[trigger] refs@[q]).0 <= refs@[q].1
                <= cv@.len(),
            rseq == refs@.map_values(
                |p: (usize, usize)| spec_lower(cv@.subrange(p.0 as int, p.1 as int)),
            ),
            spec_append_refs_from(cseq, rseq, 0) == spec_append_refs_from(out@, rseq, k as int),
        decreases refs@.len() - k,
    {
        let (ra, rb) = refs[k];
        proof {
            assert(rseq[k as int] == spec_lower(cv@.subrange(ra as int, rb as int)));
        }
        out.append(" ");
        crate::text::append_lowered(&mut out, cbase.as_str(), ra, rb);
        proof {
            reveal_strlit(" ");
            assert(" "@ =~= seq![' ']);
        }
        k += 1;
    }
    proof {
        assert(spec_append_refs_from(out@, rseq, k as int) == out@);
    }
    out
}

/// The word with leading non-alphanumeric characters removed.
pub open spec fn spec_drop_leading_nonalnum(s: Seq<char>) -> Seq<char>
    decreases s.len(),
{
    if s.len() > 0 && !spec_is_ascii_alnum(s[0]) {
        spec_drop_leading_nonalnum(s.drop_first())
    } else {
        s
    }
}

/// The word with trailing non-alphanumeric characters removed.
pub open spec fn spec_drop_trailing_nonalnum(s: Seq<char>) -> Seq<char>
    decreases s.len(),
{
    if s.len() > 0 && !spec_is_ascii_alnum(s[s.len() - 1]) {
        spec_drop_trailing_nonalnum(s.drop_last())
    } else {
        s
    }
}

proof fn lemma_drop_leading_nonalnum_is_subrange(s: Seq<char>, k: int)
    requires
        0 <= k <= s.len(),
        forall|i: int| 0 <= i < k ==> !spec_is_ascii_alnum(s[i]),
        k < s.len() ==> spec_is_ascii_alnum(s[k]),
    ensures
        spec_drop_leading_nonalnum(s) == s.subrange(k, s.len() as int),
    decreases k,
{
    if k == 0 {
        assert(s.subrange(0, s.len() as int) =~= s);
    } else {
        let d = s.drop_first();
        assert(forall|i: int| 0 <= i < k - 1 ==> !spec_is_ascii_alnum(#[trigger] d[i]));
        lemma_drop_leading_nonalnum_is_subrange(d, k - 1);
        assert(d.subrange(k - 1, d.len() as int) =~= s.subrange(k, s.len() as int));
    }
}

proof fn lemma_drop_trailing_nonalnum_is_subrange(s: Seq<char>, k: int)
    requires
        0 <= k <= s.len(),
        forall|i: int| k <= i < s.len() ==> !spec_is_ascii_alnum(s[i]),
        k > 0 ==> spec_is_ascii_alnum(s[k - 1]),
    ensures
        spec_drop_trailing_nonalnum(s) == s.subrange(0, k),
    decreases s.len() - k,
{
    if k == s.len() {
        assert(s.subrange(0, k) =~= s);
    } else {
        let d = s.drop_last();
        lemma_drop_trailing_nonalnum_is_subrange(d, k);
        assert(d.subrange(0, k) =~= s.subrange(0, k));
    }
}

/// A word token as it is compared: lower-cased, with non-alphanumeric
/// edges stripped.
pub open spec fn spec_clean_word(w: Seq<char>) -> Seq<char> {
    spec_drop_trailing_nonalnum(spec_drop_leading_nonalnum(spec_lower(w)))
}

/// The cleaned words of the listed word tokens, empty ones dropped.
pub open spec fn spec_clean_words_from(ws: Seq<Seq<char>>, i: int) -> Seq<Seq<char>>
    decreases ws.len() - i,
    when 0 <= i
{
    if i >= ws.len() {
        Seq::empty()
    } else {
        let c = spec_clean_word(ws[i]);
        if c.len() > 0 {
            seq![c] + spec_clean_words_from(ws, i + 1)
        } else {
            spec_clean_words_from(ws, i + 1)
        }
    }
}

/// The cleaned word tokens of a text.
pub open spec fn spec_clean_words(s: Seq<char>) -> Seq<Seq<char>> {
    spec_clean_words_from(spec_words(s), 0)
}

/// The words with later duplicates removed (first occurrence kept).
pub open spec fn spec_distinct_from(ws: Seq<Seq<char>>, i: int, acc: Seq<Seq<char>>) -> Seq<
    Seq<char>,
>
    decreases ws.len() - i,
    when 0 <= i
{
    if i >= ws.len() {
        acc
    } else if acc.contains(ws[i]) {
        spec_distinct_from(ws, i + 1, acc)
    } else {
        spec_distinct_from(ws, i + 1, acc.push(ws[i]))
    }
}

pub open spec fn spec_distinct(ws: Seq<Seq<char>>) -> Seq<Seq<char>> {
    spec_distinct_from(ws, 0, Seq::empty())
}

/// The distinct cleaned words of a text: its word set.
pub open spec fn spec_word_set(s: Seq<char>) -> Seq<Seq<char>> {
    spec_distinct(spec_clean_words(s))
}

/// How many of the words in `xs` also occur in `ys`.
pub open spec fn spec_count_in(xs: Seq<Seq<char>>, ys: Seq<Seq<char>>, i: int) -> int
    decreases xs.len() - i,
    when 0 <= i
{
    if i >= xs.len() {
        0
    } else {
        (if ys.contains(xs[i]) { 1int } else { 0int }) + spec_count_in(xs, ys, i + 1)
    }
}

/// Word-set Jaccard similarity of at least `pct` per cent: the sizes of
/// the intersection and union of the two word sets are compared exactly,
/// with empty word sets never similar.
pub open spec fn spec_overlap(a: Seq<char>, b: Seq<char>, pct: int) -> bool {
    let da = spec_word_set(a);
    let db = spec_word_set(b);
    if da.len() == 0 || db.len() == 0 {
        false
    } else {
        let inter = spec_count_in(da, db, 0);
        let union = da.len() + db.len() - inter;
        inter * 100 >= union * pct
    }
}

/// Computes the distinct cleaned words of a text.
fn word_set_of(s: &str) -> (r: Vec<Vec<char>>)
    ensures
        r@.map_values(|w: Vec<char>| w@) == spec_word_set(s@),
{
    let cv = chars_vec(s);
    let ml = map_lower(&cv);
    let spans = word_spans(&cv);
    let ghost words = spec_words(cv@);
    proof {
        assert(words.len() == spans@.len());
    }

    // clean every word, dropping the ones that clean to nothing
    let mut cleaned: Vec<Vec<char>> = Vec::new();
    let mut i: usize = 0;
    while i < spans.len()
        invariant
            i <= spans@.len(),
            ml@ == spec_lower(cv@),
            words == spec_words(cv@),
            words.len() == spans@.len(),
            spans@.map_values(|p: (usize, usize)| (p.0 as int, p.1 as int)) == word_spans_from(
                cv@,
                0,
            ),
            forall|q: int| 0 <= q < spans@.len() ==> (#[trigger] spans@[q]).0 < spans@[q].1
                <= cv@.len(),
            spec_clean_words(cv@) == cleaned@.map_values(|w: Vec<char>| w@)
                + spec_clean_words_from(words, i as int),
        decreases spans@.len() - i,
    {
        let ghost pre = cleaned@;
        let (a, b) = spans[i];
        proof {
            assert(spans@.map_values(|p: (usize, usize)| (p.0 as int, p.1 as int))[i as int]
                == (a as int, b as int));
            assert(words[i as int] == cv@.subrange(a as int, b as int));
            lemma_lower_subrange(cv@, a as int, b as int);
        }
        let ghost low = spec_lower(words[i as int]);
        // strip non-alphanumeric edges of the lowered word
        let mut a2: usize = a;
        while a2 < b && !crate::text::is_ascii_alnum(ml[a2])
            invariant
                a <= a2 <= b <= ml@.len(),
                forall|q: int| a <= q < a2 ==> !spec_is_ascii_alnum(ml@[q]),
            decreases b - a2,
        {
            a2 += 1;
        }
        if a2 == b {
            proof {
                assert(low =~= ml@.subrange(a as int, b as int));
                lemma_drop_leading_nonalnum_is_subrange(low, low.len() as int);
                assert(spec_drop_leading_nonalnum(low) =~= Seq::<char>::empty());
                assert(spec_clean_word(words[i as int]).len() == 0);
                assert(pre.map_values(|w: Vec<char>| w@) + spec_clean_words_from(words, i as int)
                    =~= pre.map_values(|w: Vec<char>| w@) + spec_clean_words_from(
                    words,
                    i + 1,
                ));
            }
        } else {
            let mut b2: usize = b;
            while b2 > a2 && !crate::text::is_ascii_alnum(ml[b2 - 1])
                invariant
                    a2 <= b2 <= b <= ml@.len(),
                    a2 < b,
                    spec_is_ascii_alnum(ml@[a2 as int]),
                    forall|q: int| b2 <= q < b ==> !spec_is_ascii_alnum(ml@[q]),
                decreases b2,
            {
                b2 -= 1;
            }
            let w = copy_range(&ml, a2, b2);
            proof {
                assert(low =~= ml@.subrange(a as int, b as int));
                lemma_drop_leading_nonalnum_is_subrange(low, a2 - a);
                let mid = low.subrange(a2 - a, low.len() as int);
                lemma_drop_trailing_nonalnum_is_subrange(mid, b2 - a2);
                assert(mid.subrange(0, b2 - a2) =~= ml@.subrange(a2 as int, b2 as int));
                assert(spec_clean_word(words[i as int]) == w@);
                assert(w@.len() > 0);
            }
            cleaned.push(w);
            proof {
                assert(cleaned@.map_values(|w2: Vec<char>| w2@) =~= pre.map_values(
                    |w2: Vec<char>| w2@,
                ) + seq![spec_clean_word(words[i as int])]);
                assert(spec_clean_words_from(words, i as int) == seq![
                    spec_clean_word(words[i as int]),
                ] + spec_clean_words_from(words, i + 1));
                assert(pre.map_values(|w2: Vec<char>| w2@) + spec_clean_words_from(
                    words,
                    i as int,
                ) =~= cleaned@.map_values(|w2: Vec<char>| w2@) + spec_clean_words_from(
                    words,
                    i + 1,
                ));
            }
        }
        i += 1;
    }
    proof {
        assert(spec_clean_words_from(words, i as int) =~= Seq::<Seq<char>>::empty());
        assert(spec_clean_words(cv@) =~= cleaned@.map_values(|w: Vec<char>| w@));
    }

    // keep only the first occurrence of every word
    let mut distinct: Vec<Vec<char>> = Vec::new();
    proof {
        assert(distinct@.map_values(|w: Vec<char>| w@) =~= Seq::<Seq<char>>::empty());
    }
    let mut j: usize = 0;
    while j < cleaned.len()
        invariant
            j <= cleaned@.len(),
            spec_distinct(cleaned@.map_values(|w: Vec<char>| w@)) == spec_distinct_from(
                cleaned@.map_values(|w: Vec<char>| w@),
                j as int,
                distinct@.map_values(|w: Vec<char>| w@),
            ),
        decreases cleaned@.len() - j,
    {
        let ghost pre = distinct@;
        let seen = contains_word(&distinct, &cleaned[j]);
        proof {
            assert(cleaned@.map_values(|w: Vec<char>| w@)[j as int] == cleaned@[j as int]@);
        }
        if !seen {
            let w = cleaned[j].clone();
            proof {
                assert(w@ == cleaned@[j as int]@);
            }
            distinct.push(w);
            proof {
                assert(distinct@.map_values(|w2: Vec<char>| w2@) =~= pre.map_values(
                    |w2: Vec<char>| w2@,
                ).push(cleaned@[j as int]@));
            }
        }
        j += 1;
    }
    proof {
        assert(spec_distinct_from(
            cleaned@.map_values(|w: Vec<char>| w@),
            j as int,
            distinct@.map_values(|w: Vec<char>| w@),
        ) == distinct@.map_values(|w: Vec<char>| w@));
    }
    distinct
}

/// Whether `w` occurs in `ws`.
fn contains_word(ws: &Vec<Vec<char>>, w: &Vec<char>) -> (r: bool)
    ensures
        r == ws@.map_values(|v: Vec<char>| v@).contains(w@),
{
    let mut k: usize = 0;
    while k < ws.len()
        invariant
            k <= ws@.len(),
            forall|q: int| 0 <= q < k ==> (#[trigger] ws@[q])@ != w@,
        decreases ws@.len() - k,
    {
        if chars_eq(&ws[k], w) {
            proof {
                assert(ws@.map_values(|v: Vec<char>| v@)[k as int] == w@);
            }
            return true;
        }
        k += 1;
    }
    proof {
        let m = ws@.map_values(|v: Vec<char>| v@);
        if m.contains(w@) {
            let q = choose|q: int| 0 <= q < m.len() && m[q] == w@;
            assert(ws@[q]@ == w@);
            assert(false);
        }
    }
    false
}

/// Check whether two text chunks have at least `threshold_pct` per cent
/// word-set Jaccard similarity.
pub fn chunks_overlap(a: &str, b: &str, threshold_pct: u64) -> (r: bool)
    requires
        threshold_pct <= 100,
    ensures
        r == spec_overlap(a@, b@, threshold_pct as int),
{
    let da = word_set_of(a);
    let db = word_set_of(b);
    if da.len() == 0 || db.len() == 0 {
        return false;
    }
    let ghost das = da@.map_values(|w: Vec<char>| w@);
    let ghost dbs = db@.map_values(|w: Vec<char>| w@);
    let mut inter: usize = 0;
    let mut i: usize = 0;
    while i < da.len()
        invariant
            i <= da@.len(),
            inter <= i,
            das == da@.map_values(|w: Vec<char>| w@),
            dbs == db@.map_values(|w: Vec<char>| w@),
            spec_count_in(das, dbs, 0) == inter + spec_count_in(das, dbs, i as int),
        decreases da@.len() - i,
    {
        proof {
            assert(das[i as int] == da@[i as int]@);
        }
        if contains_word(&db, &da[i]) {
            inter += 1;
        }
        i += 1;
    }
    proof {
        assert(spec_count_in(das, dbs, i as int) == 0);
        lemma_count_in_bound(das, dbs, 0);
    }
    let uni: u128 = da.len() as u128 + db.len() as u128 - inter as u128;
    let lhs: u128 = (inter as u128) * 100;
    proof {
        assert(uni * (threshold_pct as u128) <= (2 * (usize::MAX as u128)) * 100)
            by (nonlinear_arith)
            requires
                uni <= 2 * (usize::MAX as u128),
                threshold_pct <= 100,
        ;
    }
    let rhs: u128 = uni * (threshold_pct as u128);
    lhs >= rhs
}

proof fn lemma_count_in_bound(xs: Seq<Seq<char>>, ys: Seq<Seq<char>>, i: int)
    requires
        0 <= i <= xs.len(),
    ensures
        0 <= spec_count_in(xs, ys, i) <= xs.len() - i,
    decreases xs.len() - i,
{
    if i < xs.len() {
        lemma_count_in_bound(xs, ys, i + 1);
    }
}

/// The chunk list as id and character-sequence pairs.
pub open spec fn view_pairs(v: Seq<(i64, String)>) -> Seq<(i64, Seq<char>)> {
    v.map_values(|p: (i64, String)| (p.0, p.1@))
}

/// Deduplication: a chunk is kept exactly when no earlier kept chunk has
/// at least 80 per cent word-set overlap with it.
pub open spec fn spec_dedup_from(
    s: Seq<(i64, Seq<char>)>,
    i: int,
    acc: Seq<(i64, Seq<char>)>,
) -> Seq<(i64, Seq<char>)>
    decreases s.len() - i,
    when 0 <= i
{
    if i >= s.len() {
        acc
    } else if exists|k: int| 0 <= k < acc.len() && spec_overlap((#[trigger] acc[k]).1, s[i].1, 80) {
        spec_dedup_from(s, i + 1, acc)
    } else {
        spec_dedup_from(s, i + 1, acc.push(s[i]))
    }
}

pub open spec fn spec_dedup_chunks(s: Seq<(i64, Seq<char>)>) -> Seq<(i64, Seq<char>)> {
    spec_dedup_from(s, 0, Seq::empty())
}

/// Whether any already-kept chunk overlaps the candidate content.
fn any_overlap(kept: &Vec<(i64, String)>, content: &String) -> (r: bool)
    ensures
        r == exists|k: int|
            0 <= k < kept@.len() && spec_overlap(
                (#[trigger] view_pairs(kept@)[k]).1,
                content@,
                80,
            ),
{
    let mut k: usize = 0;
    while k < kept.len()
        invariant
            k <= kept@.len(),
            forall|q: int| 0 <= q < k ==> !spec_overlap(
                (#[trigger] view_pairs(kept@)[q]).1,
                content@,
                80,
            ),
        decreases kept@.len() - k,
    {
        if chunks_overlap(kept[k].1.as_str(), content.as_str(), 80) {
            proof {
                assert(view_pairs(kept@)[k as int].1 == kept@[k as int].1@);
            }
            return true;
        }
        proof {
            assert(view_pairs(kept@)[k as int].1 == kept@[k as int].1@);
        }
        k += 1;
    }
    false
}

/// Remove chunks with at least 80 per cent word overlap against any chunk
/// kept so far; the first occurrence survives.
pub fn deduplicate_chunks(chunks: Vec<(i64, String)>) -> (r: Vec<(i64, String)>)
    ensures
        view_pairs(r@) == spec_dedup_chunks(view_pairs(chunks@)),
{
    let ghost s = view_pairs(chunks@);
    let mut result: Vec<(i64, String)> = Vec::new();
    proof {
        assert(view_pairs(result@) =~= Seq::<(i64, Seq<char>)>::empty());
    }
    let mut i: usize = 0;
    while i < chunks.len()
        invariant
            i <= chunks@.len(),
            s == view_pairs(chunks@),
            spec_dedup_chunks(s) == spec_dedup_from(s, i as int, view_pairs(result@)),
        decreases chunks@.len() - i,
    {
        let ghost pre = view_pairs(result@);
        proof {
            assert(s[i as int] == (chunks@[i as int].0, chunks@[i as int].1@));
        }
        let is_dup = any_overlap(&result, &chunks[i].1);
        if !is_dup {
            let id = chunks[i].0;
            let content = chunks[i].1.clone();
            result.push((id, content));
            proof {
                assert(view_pairs(result@) =~= pre.push(s[i as int]));
            }
        }
        i += 1;
    }
    result
}

/// Every pair of chunks that deduplication keeps is below the overlap
/// threshold, taken in the order in which they were kept.
pub proof fn lemma_dedup_keeps_no_near_duplicates(s: Seq<(i64, Seq<char>)>)
    ensures
        forall|i: int, j: int|
            0 <= i < j < spec_dedup_chunks(s).len() ==> !spec_overlap(
                (#[trigger] spec_dedup_chunks(s)[i]).1,
                (#[trigger] spec_dedup_chunks(s)[j]).1,
                80,
            ),
{
    lemma_dedup_from_pairwise(s, 0, Seq::empty());
}

proof fn lemma_dedup_from_pairwise(s: Seq<(i64, Seq<char>)>, i: int, acc: Seq<(i64, Seq<char>)>)
    requires
        0 <= i <= s.len(),
        forall|p: int, q: int|
            0 <= p < q < acc.len() ==> !spec_overlap(
                (#[trigger] acc[p]).1,
                (#[trigger] acc[q]).1,
                80,
            ),
    ensures
        forall|p: int, q: int|
            0 <= p < q < spec_dedup_from(s, i, acc).len() ==> !spec_overlap(
                (#[trigger] spec_dedup_from(s, i, acc)[p]).1,
                (#[trigger] spec_dedup_from(s, i, acc)[q]).1,
                80,
            ),
    decreases s.len() - i,
{
    if i >= s.len() {
        assert(spec_dedup_from(s, i, acc) == acc);
    } else {
        if exists|k: int| 0 <= k < acc.len() && spec_overlap((#[trigger] acc[k]).1, s[i].1, 80) {
            assert(spec_dedup_from(s, i, acc) == spec_dedup_from(s, i + 1, acc));
            lemma_dedup_from_pairwise(s, i + 1, acc);
        } else {
            let acc2 = acc.push(s[i]);
            assert(spec_dedup_from(s, i, acc) == spec_dedup_from(s, i + 1, acc2));
            assert forall|p: int, q: int| 0 <= p < q < acc2.len() implies !spec_overlap(
                (#[trigger] acc2[p]).1,
                (#[trigger] acc2[q]).1,
                80,
            ) by {
                if q == acc.len() {
                    assert(acc2[p] == acc[p]);
                    assert(!spec_overlap(acc[p].1, s[i].1, 80));
                }
            }
            lemma_dedup_from_pairwise(s, i + 1, acc2);
        }
    }
}

/// Deduplication only ever appends: what was kept stays kept, in place.
proof fn lemma_dedup_from_prefix(s: Seq<(i64, Seq<char>)>, i: int, acc: Seq<(i64, Seq<char>)>)
    requires
        0 <= i <= s.len(),
    ensures
        acc.is_prefix_of(spec_dedup_from(s, i, acc)),
    decreases s.len() - i,
{
    if i >= s.len() {
        assert(acc.is_prefix_of(acc));
    } else {
        if exists|k: int| 0 <= k < acc.len() && spec_overlap((#[trigger] acc[k]).1, s[i].1, 80) {
            lemma_dedup_from_prefix(s, i + 1, acc);
        } else {
            lemma_dedup_from_prefix(s, i + 1, acc.push(s[i]));
            assert(acc.is_prefix_of(acc.push(s[i])));
            let full = spec_dedup_from(s, i + 1, acc.push(s[i]));
            assert(acc.push(s[i]).is_prefix_of(full));
            assert(acc.is_prefix_of(full)) by {
                assert(forall|q: int| 0 <= q < acc.len() ==> acc[q] == #[trigger] full[q]);
                assert(acc =~= full.subrange(0, acc.len() as int));
            }
        }
    }
}

/// The first chunk of a non-empty list always survives deduplication, in
/// first place.
pub proof fn lemma_dedup_first_kept(s: Seq<(i64, Seq<char>)>)
    requires
        s.len() > 0,
    ensures
        spec_dedup_chunks(s).len() >= 1,
        spec_dedup_chunks(s)[0] == s[0],
{
    let e = Seq::<(i64, Seq<char>)>::empty();
    assert(spec_dedup_from(s, 0, e) == spec_dedup_from(s, 1, e.push(s[0])));
    lemma_dedup_from_prefix(s, 1, e.push(s[0]));
    assert(e.push(s[0])[0] == s[0]);
    assert(spec_dedup_chunks(s)[0] == s[0]) by {
        assert(e.push(s[0]) =~= spec_dedup_chunks(s).subrange(0, 1));
    }
}

/// On a list of two chunks, the second is dropped exactly when its word
/// overlap with the first reaches the threshold.
pub proof fn lemma_dedup_pair(s: Seq<(i64, Seq<char>)>)
    requires
        s.len() == 2,
    ensures
        spec_overlap(s[0].1, s[1].1, 80) ==> spec_dedup_chunks(s) =~= seq![s[0]],
        !spec_overlap(s[0].1, s[1].1, 80) ==> spec_dedup_chunks(s) =~= s,
{
    let e = Seq::<(i64, Seq<char>)>::empty();
    assert(spec_dedup_from(s, 0, e) == spec_dedup_from(s, 1, e.push(s[0])));
    let acc1 = e.push(s[0]);
    assert(acc1[0] == s[0]);
    if spec_overlap(s[0].1, s[1].1, 80) {
        assert(exists|k: int|
            0 <= k < acc1.len() && spec_overlap((#[trigger] acc1[k]).1, s[1].1, 80));
        assert(spec_dedup_from(s, 1, acc1) == spec_dedup_from(s, 2, acc1));
    } else {
        assert(forall|k: int|
            0 <= k < acc1.len() ==> !spec_overlap((#[trigger] acc1[k]).1, s[1].1, 80));
        assert(spec_dedup_from(s, 1, acc1) == spec_dedup_from(s, 2, acc1.push(s[1])));
        assert(spec_dedup_from(s, 2, acc1.push(s[1])) =~= s);
    }
}

/// Extract the numeric reference tokens of a query: every token that
/// directly follows a reference keyword (exercise, chapter, page and the
/// like) and contains a digit, lower-cased, in order.
pub fn extract_references(query: &str) -> (r: Vec<String>)
    ensures
        r@.map_values(|s: String| s@) == spec_refs(query@),
{
    let cv = chars_vec(query);
    let cl = map_lower(&cv);
    let spans = word_spans(&cv);
    let ghost words = spec_words(cv@);
    proof {
        assert(words.len() == spans@.len());
    }
    let mut refs: Vec<String> = Vec::new();
    let nspans = spans.len();
    let mut w: usize = 0;
    while nspans - w > 1
        invariant
            w <= nspans,
            nspans == spans@.len(),
            cv@ == query@,
            cl@ == spec_lower(cv@),
            words == spec_words(cv@),
            words.len() == spans@.len(),
            spans@.map_values(|p: (usize, usize)| (p.0 as int, p.1 as int)) == word_spans_from(
                cv@,
                0,
            ),
            forall|q: int| 0 <= q < spans@.len() ==> (#[trigger] spans@[q]).0 < spans@[q].1
                <= cv@.len(),
            spec_refs(query@) == refs@.map_values(|s: String| s@) + spec_refs_from(
                words,
                w as int,
            ),
        decreases nspans - w,
    {
        let ghost pre = refs@;
        let (ka, kb) = spans[w];
        let (na, nb) = spans[w + 1];
        proof {
            assert(spans@.map_values(|p: (usize, usize)| (p.0 as int, p.1 as int))[w as int]
                == (ka as int, kb as int));
            assert(words[w as int] == cv@.subrange(ka as int, kb as int));
            assert(spans@.map_values(|p: (usize, usize)| (p.0 as int, p.1 as int))[w + 1]
                == (na as int, nb as int));
            assert(words[w + 1] == cv@.subrange(na as int, nb as int));
            lemma_lower_subrange(cv@, ka as int, kb as int);
        }
        let is_kw = is_ref_keyword_range(&cl, ka, kb);
        let has_digit = has_digit_range(&cv, na, nb);
        proof {
            assert(cl@.subrange(ka as int, kb as int) == spec_lower(words[w as int]));
        }
        if is_kw && has_digit {
            let mut tok = String::new();
            crate::text::append_lowered(&mut tok, query, na, nb);
            proof {
                assert(tok@ == spec_lower(cv@.subrange(na as int, nb as int)));
            }
            refs.push(tok);
            proof {
                assert(refs@.map_values(|s: String| s@) =~= pre.map_values(|s: String| s@)
                    + seq![spec_lower(cv@.subrange(na as int, nb as int))]);
                assert(spec_refs_from(words, w as int) == seq![spec_lower(words[w + 1])]
                    + spec_refs_from(words, w + 1));
            }
        } else {
            proof {
                assert(spec_refs_from(words, w as int) == spec_refs_from(words, w + 1));
            }
        }
        w += 1;
    }
    proof {
        assert(spec_refs_from(words, w as int) =~= Seq::<Seq<char>>::empty());
        assert(spec_refs(query@) =~= refs@.map_values(|s: String| s@));
    }
    refs
}

/// Overlap is monotone in the threshold: word sets that clear a higher
/// threshold clear every lower one.
pub proof fn lemma_overlap_monotone(a: Seq<char>, b: Seq<char>, p1: int, p2: int)
    requires
        0 <= p1 <= p2,
        spec_overlap(a, b, p2),
    ensures
        spec_overlap(a, b, p1),
{
    let da = spec_word_set(a);
    let db = spec_word_set(b);
    lemma_count_in_bound(da, db, 0);
    let inter = spec_count_in(da, db, 0);
    let uni = da.len() + db.len() - inter;
    assert(uni * p1 <= uni * p2) by (nonlinear_arith)
        requires
            uni >= 0,
            0 <= p1 <= p2,
    ;
}

/// On a list of two chunks whose word-set similarity stays below half,
/// both survive deduplication: the threshold sits at eighty per cent, so
/// a pair under fifty per cent is never merged.
pub proof fn lemma_dedup_pair_below_half(s: Seq<(i64, Seq<char>)>)
    requires
        s.len() == 2,
        !spec_overlap(s[0].1, s[1].1, 50),
    ensures
        spec_dedup_chunks(s) =~= s,
{
    if spec_overlap(s[0].1, s[1].1, 80) {
        lemma_overlap_monotone(s[0].1, s[1].1, 50, 80);
    }
    lemma_dedup_pair(s);
}

} // verus!
