//! Splits normalized document text into overlapping, boundary-respecting
//! chunks.
//!
//! All offsets and sizes count characters of the trimmed input text.  A
//! window never exceeds `chunk_size` characters; a window's emitted text is
//! the window trimmed of surrounding whitespace, and windows that trim to
//! nothing are dropped while emitted ordinals stay dense.

use vstd::prelude::*;

use crate::text::{
    rfind_char, rfind_pair, spec_is_ws, spec_trim, trim_bounds_range, chars_vec,
};

verus! {

/// A chunk of text with its position among the emitted chunks and its
/// character span within the trimmed source text.
#[derive(Debug, Clone)]
pub struct Chunk {
    pub text: String,
    pub index: usize,
    pub start_char: usize,
    pub end_char: usize,
}

/// Configuration for chunking: the target window size and the overlap
/// carried from one window into the next, both in characters.
#[derive(Debug, Clone)]
pub struct ChunkConfig {
    pub chunk_size: usize,
    pub overlap: usize,
}

impl Default for ChunkConfig {
    /// Roughly 250 tokens per chunk, with some overlap for continuity.
    fn default() -> (c: Self)
        ensures
            c.chunk_size == 1000,
            c.overlap == 200,
    {
        ChunkConfig { chunk_size: 1000, overlap: 200 }
    }
}

/// What it means for a list of chunks to chunk the trimmed text `t`:
/// ordinals are dense, spans are non-empty windows of at most `size`
/// characters with strictly increasing starts, each chunk's text is its
/// trimmed window, and a window ends at the text's end, just after a space
/// or newline, or — when the window holds no break at all — at the raw
/// `size` boundary.
pub open spec fn chunks_well_formed(cs: Seq<Chunk>, t: Seq<char>, size: nat) -> bool {
    &&& forall|i: int| 0 <= i < cs.len() ==> (#[trigger] cs[i]).index == i
    &&& forall|i: int|
        0 <= i < cs.len() ==> (#[trigger] cs[i]).start_char < cs[i].end_char <= t.len()
    &&& forall|i: int| 0 <= i < cs.len() ==> (#[trigger] cs[i]).end_char - cs[i].start_char <= size
    &&& forall|i: int|
        0 <= i < cs.len() ==> (#[trigger] cs[i]).text@ == spec_trim(
            t.subrange(cs[i].start_char as int, cs[i].end_char as int),
        ) && cs[i].text@.len() > 0
    &&& forall|i: int|
        0 <= i < cs.len() ==> ((#[trigger] cs[i]).end_char == t.len() || t[cs[i].end_char - 1]
            == ' ' || t[cs[i].end_char - 1] == '\n' || cs[i].end_char - cs[i].start_char == size)
    &&& forall|i: int, j: int|
        0 <= i < j < cs.len() ==> (#[trigger] cs[i]).start_char < (#[trigger] cs[j]).start_char
}

/// Every character of the trimmed text before `upto` is whitespace or lies
/// in some emitted chunk's span.
pub open spec fn chunks_cover(cs: Seq<Chunk>, t: Seq<char>, upto: int) -> bool {
    forall|pos: int|
        0 <= pos < upto ==> spec_is_ws(t[pos]) || exists|i: int|
            0 <= i < cs.len() && (#[trigger] cs[i]).start_char <= pos < cs[i].end_char
}

/// A window's break point lies past its start and at most at its end.
pub proof fn lemma_break_point_bounds(w: Seq<char>)
    requires
        w.len() >= 1,
    ensures
        0 < spec_break_point(w) <= w.len(),
{
    crate::context::lemma_rfind_pair_bounds(w, '\n', '\n');
    crate::context::lemma_rfind_pair_bounds(w, '.', ' ');
    crate::context::lemma_rfind_pair_bounds(w, '!', ' ');
    crate::context::lemma_rfind_pair_bounds(w, '?', ' ');
    crate::context::lemma_rfind_pair_bounds(w, '.', '\n');
    crate::context::lemma_rfind_pair_bounds(w, '!', '\n');
    crate::context::lemma_rfind_pair_bounds(w, '?', '\n');
    crate::context::lemma_rfind_char_bounds(w, '\n');
    crate::context::lemma_rfind_char_bounds(w, ' ');
}

/// The chunk windows of the trimmed text `t`: each window extends at most
/// `cs` characters and is cut at its break point; the next window starts
/// `ov` characters before the cut, clamped so progress is always strictly
/// positive.
pub open spec fn spec_windows(t: Seq<char>, cs: int, ov: int, start: int) -> Seq<(int, int)>
    decreases t.len() - start,
    when 0 <= start && 0 <= ov
{
    if start >= t.len() {
        Seq::empty()
    } else {
        let raw = if start + cs < t.len() {
            start + cs
        } else {
            t.len() as int
        };
        let end = if raw < t.len() {
            start + spec_break_point(t.subrange(start, raw))
        } else {
            raw
        };
        if end >= t.len() {
            seq![(start, t.len() as int)]
        } else {
            // the break point always advances the window, so the last arm
            // never fires; it keeps the recursion self-evidently finite
            let next = if ov < end && end - ov > start {
                end - ov
            } else if end > start {
                end
            } else {
                start + 1
            };
            seq![(start, end)] + spec_windows(t, cs, ov, next)
        }
    }
}

/// The chunks a window list emits: each window's trimmed text, windows
/// that trim to nothing dropped.
pub open spec fn spec_emit(t: Seq<char>, ws: Seq<(int, int)>, i: int) -> Seq<(int, int, Seq<char>)>
    decreases ws.len() - i,
    when 0 <= i
{
    if i >= ws.len() {
        Seq::empty()
    } else {
        let tx = spec_trim(t.subrange(ws[i].0, ws[i].1));
        if tx.len() > 0 {
            seq![(ws[i].0, ws[i].1, tx)] + spec_emit(t, ws, i + 1)
        } else {
            spec_emit(t, ws, i + 1)
        }
    }
}

proof fn lemma_emit_shift(t: Seq<char>, h: (int, int), tail: Seq<(int, int)>, i: int)
    requires
        0 <= i,
    ensures
        spec_emit(t, seq![h] + tail, i + 1) == spec_emit(t, tail, i),
    decreases tail.len() - i,
{
    let ws = seq![h] + tail;
    if i < tail.len() {
        assert(ws[i + 1] == tail[i]);
        lemma_emit_shift(t, h, tail, i + 1);
    }
}

/// The chunk descriptors of a text under a configuration: the window
/// spans, with each window's trimmed text.
pub open spec fn spec_chunks_of(text: Seq<char>, cs: int, ov: int) -> Seq<(int, int, Seq<char>)> {
    spec_emit(spec_trim(text), spec_windows(spec_trim(text), cs, ov, 0), 0)
}

/// Split text into overlapping chunks.
///
/// The empty (after trimming) text yields no chunks; text of at most
/// `chunk_size` characters yields exactly one chunk holding the trimmed
/// text; longer text yields at least two chunks whose windows cover every
/// non-whitespace character.  The next window starts `overlap` characters
/// before the previous window's end, clamped so progress is always strictly
/// positive.
#[verifier::rlimit(100)]
pub fn chunk_text(text: &str, config: &ChunkConfig) -> (r: Vec<Chunk>)
    requires
        config.chunk_size >= 1,
    ensures
        (r@.len() == 0 <==> spec_trim(text@).len() == 0),
        spec_trim(text@).len() > 0 ==> r@.len() >= 1 && r@[0].start_char == 0 && r@[r@.len()
            - 1].end_char == spec_trim(text@).len(),
        0 < spec_trim(text@).len() <= config.chunk_size ==> r@.len() == 1 && r@[0].text@
            == spec_trim(text@),
        spec_trim(text@).len() > config.chunk_size ==> r@.len() >= 2,
        chunks_well_formed(r@, spec_trim(text@), config.chunk_size as nat),
        chunks_cover(r@, spec_trim(text@), spec_trim(text@).len() as int),
        r@.map_values(|c: Chunk| (c.start_char as int, c.end_char as int, c.text@))
            == spec_chunks_of(text@, config.chunk_size as int, config.overlap as int),
{
    let ghost cs_g = config.chunk_size as int;
    let ghost ov_g = config.overlap as int;
    let chars = chars_vec(text);
    let n = chars.len();
    let (t0, t1) = trim_bounds_range(&chars, 0, n);
    let ghost t = spec_trim(text@);
    proof {
        assert(chars@.subrange(0, n as int) =~= chars@);
    }
    let tlen = t1 - t0;

    if tlen == 0 {
        let r: Vec<Chunk> = Vec::new();
        proof {
            assert(spec_windows(t, cs_g, ov_g, 0) =~= Seq::<(int, int)>::empty());
            assert(spec_emit(t, spec_windows(t, cs_g, ov_g, 0), 0) =~= Seq::<
                (int, int, Seq<char>),
            >::empty());
            assert(r@.map_values(|c: Chunk| (c.start_char as int, c.end_char as int, c.text@))
                =~= Seq::<(int, int, Seq<char>)>::empty());
        }
        return r;
    }
    // the trimmed text starts and ends with a non-whitespace character
    proof {
        assert(t[0] == chars@[t0 as int]);
        assert(t[tlen - 1] == chars@[t1 - 1]);
        assert(!spec_is_ws(t[0]));
        assert(!spec_is_ws(t[tlen - 1]));
    }
    if tlen <= config.chunk_size {
        let ctext = text.substring_char(t0, t1).to_owned();
        let chunk = Chunk { text: ctext, index: 0, start_char: 0, end_char: tlen };
        let mut r: Vec<Chunk> = Vec::new();
        r.push(chunk);
        proof {
            crate::text::lemma_trim_is_subrange(t, 0, tlen as int);
            assert(t.subrange(0, tlen as int) =~= chars@.subrange(t0 as int, t1 as int));
            assert(r@[0].text@ == t);
            assert forall|pos: int| 0 <= pos < t.len() implies spec_is_ws(t[pos]) || exists|i: int|
                0 <= i < r@.len() && (#[trigger] r@[i]).start_char <= pos < r@[i].end_char by {
                assert(r@[0].start_char <= pos < r@[0].end_char);
            }
            // the window recurrence stops after one full-text window
            assert(spec_windows(t, cs_g, ov_g, 0) =~= seq![(0int, tlen as int)]);
            let ws0 = seq![(0int, tlen as int)];
            assert(spec_emit(t, ws0, 1) =~= Seq::<(int, int, Seq<char>)>::empty());
            assert(spec_trim(t.subrange(0, tlen as int)) == t) by {
                assert(t.subrange(0, tlen as int) =~= t);
            }
            assert(spec_emit(t, ws0, 0) =~= seq![(0int, tlen as int, t)]);
            assert(r@.map_values(|c: Chunk| (c.start_char as int, c.end_char as int, c.text@))
                =~= seq![(0int, tlen as int, t)]);
        }
        return r;
    }

    let mut chunks: Vec<Chunk> = Vec::new();
    let mut start: usize = 0;
    let mut done = false;

    while !done
        invariant
            chars@ == text@,
            t0 <= t1 <= n == chars@.len(),
            tlen == t1 - t0,
            t == chars@.subrange(t0 as int, t1 as int),
            t.len() == tlen,
            config.chunk_size >= 1,
            cs_g == config.chunk_size as int,
            ov_g == config.overlap as int,
            !spec_is_ws(t[0]),
            !spec_is_ws(t[tlen - 1]),
            start < tlen,
            chunks_well_formed(chunks@, t, config.chunk_size as nat),
            chunks_cover(chunks@, t, start as int),
            !done ==> forall|k: int|
                0 <= k < chunks@.len() ==> (#[trigger] chunks@[k]).start_char < start,
            chunks@.len() == 0 ==> start == 0,
            chunks@.len() > 0 ==> chunks@[0].start_char == 0,
            done ==> chunks@.len() > 0 && chunks@[chunks@.len() - 1].end_char == tlen
                && chunks_cover(chunks@, t, tlen as int),
            !done ==> spec_emit(t, spec_windows(t, cs_g, ov_g, 0), 0) == chunks@.map_values(
                |c: Chunk| (c.start_char as int, c.end_char as int, c.text@),
            ) + spec_emit(t, spec_windows(t, cs_g, ov_g, start as int), 0),
            done ==> spec_emit(t, spec_windows(t, cs_g, ov_g, 0), 0) == chunks@.map_values(
                |c: Chunk| (c.start_char as int, c.end_char as int, c.text@),
            ),
        decreases (if done { 0int } else { 1int }), tlen - start,
    {
        let raw_end: usize = if config.chunk_size < tlen - start {
            start + config.chunk_size
        } else {
            tlen
        };
        let end: usize = if raw_end < tlen {
            find_break_point(&chars, t0 + start, t0 + raw_end) - t0
        } else {
            raw_end
        };
        proof {
            assert(forall|i: int| 0 <= i < tlen ==> t[i] == chars@[t0 + i]);
            assert(end == tlen || t[end - 1] == ' ' || t[end - 1] == '\n' || end == raw_end);
            // the exec window matches the specification's window
            if raw_end < tlen {
                assert(chars@.subrange(t0 + start, t0 + raw_end) =~= t.subrange(
                    start as int,
                    raw_end as int,
                ));
            }
        }
        let ghost spec_end: int = ({
            let raw = if start + cs_g < t.len() {
                start + cs_g
            } else {
                t.len() as int
            };
            if raw < t.len() {
                start + spec_break_point(t.subrange(start as int, raw))
            } else {
                raw
            }
        });
        proof {
            let raw_s = if start + cs_g < t.len() {
                start + cs_g
            } else {
                t.len() as int
            };
            assert(raw_s == raw_end as int);
            if raw_end < tlen {
                let w1 = t.subrange(start as int, raw_s);
                let w2 = chars@.subrange(t0 + start, t0 + raw_end);
                assert(w1 =~= w2);
                assert(w1 == w2);
                assert(spec_break_point(w1) == spec_break_point(w2));
                assert(end as int - start as int == spec_break_point(w2));
            }
            assert(spec_end == end as int);
        }

        let (a, b) = trim_bounds_range(&chars, t0 + start, t0 + end);
        let ghost pre = chunks@;
        if a < b {
            let ctext = text.substring_char(a, b).to_owned();
            let chunk = Chunk {
                text: ctext,
                index: chunks.len(),
                start_char: start,
                end_char: end,
            };
            proof {
                assert(chars@.subrange(a as int, b as int) == spec_trim(
                    chars@.subrange(t0 + start, t0 + end),
                ));
                assert(chars@.subrange(t0 + start, t0 + end) =~= t.subrange(
                    start as int,
                    end as int,
                ));
            }
            chunks.push(chunk);
            proof {
                let w = chunks@.len() - 1;
                assert forall|pos: int| 0 <= pos < end as int implies spec_is_ws(t[pos])
                    || exists|i: int|
                    0 <= i < chunks@.len() && (#[trigger] chunks@[i]).start_char <= pos
                        < chunks@[i].end_char by {
                    if pos < start as int {
                        if !spec_is_ws(t[pos]) {
                            let i = choose|i: int|
                                0 <= i < pre.len() && (#[trigger] pre[i]).start_char <= pos
                                    < pre[i].end_char;
                            assert(chunks@[i].start_char <= pos < chunks@[i].end_char);
                        }
                    } else {
                        assert(chunks@[w].start_char <= pos < chunks@[w].end_char);
                    }
                }
            }
        } else {
            // the window was all whitespace: drop it; its characters are
            // whitespace and need no chunk
            proof {
                assert(forall|i: int| t0 + start <= i < t0 + end ==> spec_is_ws(chars@[i]));
                assert forall|pos: int| 0 <= pos < end as int implies spec_is_ws(t[pos])
                    || exists|i: int|
                    0 <= i < chunks@.len() && (#[trigger] chunks@[i]).start_char <= pos
                        < chunks@[i].end_char by {
                    if start as int <= pos {
                        assert(t[pos] == chars@[t0 + pos]);
                        assert(spec_is_ws(t[pos]));
                    }
                }
            }
        }

        if end >= tlen {
            // the final window always holds the last, non-whitespace
            // character of the text, so it was emitted
            proof {
                assert(t[tlen - 1] == chars@[t1 - 1]);
                if a >= b {
                    assert(spec_is_ws(chars@[t1 - 1]));
                    assert(false);
                }
                let last = chunks@.len() - 1;
                assert(chunks@[last].end_char == tlen);
                // the recurrence ends with this full-tail window
                assert(spec_windows(t, cs_g, ov_g, start as int) =~= seq![
                    (start as int, tlen as int),
                ]);
                let tx = spec_trim(t.subrange(start as int, tlen as int));
                assert(tx == chars@.subrange(a as int, b as int)) by {
                    assert(chars@.subrange(t0 + start, t0 + end) =~= t.subrange(
                        start as int,
                        tlen as int,
                    ));
                }
                assert(tx.len() > 0);
                let wsl = seq![(start as int, tlen as int)];
                assert(spec_emit(t, wsl, 1) =~= Seq::<(int, int, Seq<char>)>::empty());
                assert(spec_emit(t, wsl, 0) =~= seq![(start as int, tlen as int, tx)]);
                assert(spec_emit(t, spec_windows(t, cs_g, ov_g, start as int), 0) =~= seq![
                    (start as int, tlen as int, tx),
                ]);
                assert(chunks@.map_values(
                    |c: Chunk| (c.start_char as int, c.end_char as int, c.text@),
                ) =~= pre.map_values(|c: Chunk| (c.start_char as int, c.end_char as int, c.text@))
                    + seq![(start as int, tlen as int, tx)]);
            }
            done = true;
        } else {
            let next: usize = if config.overlap < end && end - config.overlap > start {
                end - config.overlap
            } else {
                end
            };
            proof {
                // one window of the recurrence was processed
                let h = (start as int, end as int);
                let tail = spec_windows(t, cs_g, ov_g, next as int);
                assert(spec_windows(t, cs_g, ov_g, start as int) =~= seq![h] + tail);
                lemma_emit_shift(t, h, tail, 0);
                let tx = spec_trim(t.subrange(start as int, end as int));
                assert(tx == chars@.subrange(a as int, b as int)) by {
                    assert(chars@.subrange(t0 + start, t0 + end) =~= t.subrange(
                        start as int,
                        end as int,
                    ));
                }
                if a < b {
                    assert(tx.len() > 0);
                    assert(spec_emit(t, seq![h] + tail, 0) =~= seq![(start as int, end as int, tx)]
                        + spec_emit(t, tail, 0));
                    assert(chunks@.map_values(
                        |c: Chunk| (c.start_char as int, c.end_char as int, c.text@),
                    ) =~= pre.map_values(
                        |c: Chunk| (c.start_char as int, c.end_char as int, c.text@),
                    ) + seq![(start as int, end as int, tx)]);
                } else {
                    assert(tx.len() == 0);
                    assert(spec_emit(t, seq![h] + tail, 0) =~= spec_emit(t, tail, 0));
                }
            }
            start = next;
        }
    }

    proof {
        assert(chunks@.len() > 0);
        assert(chunks@[0].start_char == 0);
        if tlen > config.chunk_size {
            let last = chunks@.len() - 1;
            assert(chunks@[0].end_char - chunks@[0].start_char <= config.chunk_size);
            if chunks@.len() == 1 {
                assert(chunks@[last].end_char == tlen);
                assert(false);
            }
        }
    }
    chunks
}

/// The break point of a window, as a position past its start: the last
/// paragraph break (blank line) past the halfway point; else the last of
/// each sentence terminator, tried in order, past one third; else the last
/// newline past one third; else the last space; else the raw window end.
pub open spec fn spec_break_point(w: Seq<char>) -> int {
    let n = w.len() as int;
    let para = crate::context::spec_rfind_pair(w, '\n', '\n');
    let s1 = crate::context::spec_rfind_pair(w, '.', ' ');
    let s2 = crate::context::spec_rfind_pair(w, '!', ' ');
    let s3 = crate::context::spec_rfind_pair(w, '?', ' ');
    let s4 = crate::context::spec_rfind_pair(w, '.', '\n');
    let s5 = crate::context::spec_rfind_pair(w, '!', '\n');
    let s6 = crate::context::spec_rfind_pair(w, '?', '\n');
    let nl = crate::context::spec_rfind_char(w, '\n');
    let sp = crate::context::spec_rfind_char(w, ' ');
    if para > n / 2 {
        para + 2
    } else if s1 > n / 3 {
        s1 + 2
    } else if s2 > n / 3 {
        s2 + 2
    } else if s3 > n / 3 {
        s3 + 2
    } else if s4 > n / 3 {
        s4 + 2
    } else if s5 > n / 3 {
        s5 + 2
    } else if s6 > n / 3 {
        s6 + 2
    } else if nl > n / 3 {
        nl + 1
    } else if sp >= 0 {
        sp + 1
    } else {
        n
    }
}

/// Find the break point of the window `chars[lo..hi)`.
fn find_break_point(chars: &Vec<char>, lo: usize, hi: usize) -> (r: usize)
    requires
        lo < hi <= chars@.len(),
    ensures
        lo < r <= hi,
        r == hi || chars@[r - 1] == ' ' || chars@[r - 1] == '\n',
        r - lo == spec_break_point(chars@.subrange(lo as int, hi as int)),
{
    let ghost w = chars@.subrange(lo as int, hi as int);
    let rlen = hi - lo;
    let para = rfind_pair_rel(chars, lo, hi, '\n', '\n');
    let s1 = rfind_pair_rel(chars, lo, hi, '.', ' ');
    let s2 = rfind_pair_rel(chars, lo, hi, '!', ' ');
    let s3 = rfind_pair_rel(chars, lo, hi, '?', ' ');
    let s4 = rfind_pair_rel(chars, lo, hi, '.', '\n');
    let s5 = rfind_pair_rel(chars, lo, hi, '!', '\n');
    let s6 = rfind_pair_rel(chars, lo, hi, '?', '\n');
    let nl = rfind_char_rel(chars, lo, hi, '\n');
    let sp = rfind_char_rel(chars, lo, hi, ' ');

    // paragraph break (blank line) past the halfway point of the window
    if let Some(p) = para {
        if p > rlen / 2 {
            return lo + p + 2;
        }
    }
    // sentence terminators past one third of the window
    if let Some(p) = s1 {
        if p > rlen / 3 {
            return lo + p + 2;
        }
    }
    if let Some(p) = s2 {
        if p > rlen / 3 {
            return lo + p + 2;
        }
    }
    if let Some(p) = s3 {
        if p > rlen / 3 {
            return lo + p + 2;
        }
    }
    if let Some(p) = s4 {
        if p > rlen / 3 {
            return lo + p + 2;
        }
    }
    if let Some(p) = s5 {
        if p > rlen / 3 {
            return lo + p + 2;
        }
    }
    if let Some(p) = s6 {
        if p > rlen / 3 {
            return lo + p + 2;
        }
    }
    // a single newline past one third of the window
    if let Some(p) = nl {
        if p > rlen / 3 {
            return lo + p + 1;
        }
    }
    // a word boundary
    if let Some(p) = sp {
        return lo + p + 1;
    }
    // give up and cut at the raw window end
    hi
}

/// The last occurrence of the pair `c1 c2` in the window `chars[lo..hi)`,
/// as a position relative to the window start.
fn rfind_pair_rel(chars: &Vec<char>, lo: usize, hi: usize, c1: char, c2: char) -> (r: Option<
    usize,
>)
    requires
        lo <= hi <= chars@.len(),
    ensures
        match r {
            Some(p) => p as int == crate::context::spec_rfind_pair(
                chars@.subrange(lo as int, hi as int),
                c1,
                c2,
            ) && lo + p + 2 <= hi && chars@[lo + p] == c1 && chars@[lo + p + 1] == c2,
            None => crate::context::spec_rfind_pair(chars@.subrange(lo as int, hi as int), c1, c2)
                == -1,
        },
{
    let ghost w = chars@.subrange(lo as int, hi as int);
    match rfind_pair(chars, lo, hi, c1, c2) {
        Some(p) => {
            proof {
                assert(forall|j: int|
                    p - lo < j && j + 1 < w.len() ==> !(#[trigger] w[j] == c1 && w[j + 1] == c2));
                crate::context::lemma_rfind_pair_at(w, c1, c2, p - lo);
            }
            Some(p - lo)
        },
        None => {
            proof {
                assert(forall|j: int|
                    0 <= j && j + 1 < w.len() ==> !(#[trigger] w[j] == c1 && w[j + 1] == c2));
                crate::context::lemma_rfind_pair_none(w, c1, c2);
            }
            None
        },
    }
}

/// The last occurrence of `c` in the window `chars[lo..hi)`, as a position
/// relative to the window start.
fn rfind_char_rel(chars: &Vec<char>, lo: usize, hi: usize, c: char) -> (r: Option<usize>)
    requires
        lo <= hi <= chars@.len(),
    ensures
        match r {
            Some(p) => p as int == crate::context::spec_rfind_char(
                chars@.subrange(lo as int, hi as int),
                c,
            ) && lo + p < hi && chars@[lo + p] == c,
            None => crate::context::spec_rfind_char(chars@.subrange(lo as int, hi as int), c)
                == -1,
        },
{
    let ghost w = chars@.subrange(lo as int, hi as int);
    match rfind_char(chars, lo, hi, c) {
        Some(p) => {
            proof {
                assert(forall|j: int| p - lo < j < w.len() ==> w[j] != c);
                crate::context::lemma_rfind_char_at(w, c, p - lo);
            }
            Some(p - lo)
        },
        None => {
            proof {
                assert(forall|j: int| 0 <= j < w.len() ==> w[j] != c);
                crate::context::lemma_rfind_char_none(w, c);
            }
            None
        },
    }
}

} // verus!
