//! Best-effort parsing of quiz questions out of free-form generated text.
//!
//! The text is scanned line by line for numbered questions, lettered
//! options and answer lines.  The parse is heuristic and clearly fallible:
//! it returns a possibly-empty structured result and never guesses when
//! the shape is ambiguous.

use vstd::prelude::*;

use crate::search::{find_in_chars, spec_find_from};
use crate::text::{chars_vec, is_ascii_digit_char, map_lower, spec_trim, trim_bounds_range};

verus! {

/// A question parsed from generated quiz text.
#[derive(Debug)]
pub enum QuizQuestion {
    MultipleChoice { question: String, options: Vec<(char, String)>, correct: char },
    FillInBlank { question: String, answer: String },
    ShortAnswer { question: String, expected: String },
}

/// Structural soundness of a parsed question: no empty texts, at least two
/// options for a multiple-choice question, option letters in `a`..`d`, and
/// a blank marker inside every fill-in-the-blank question.
pub open spec fn spec_question_wf(q: QuizQuestion) -> bool {
    match q {
        QuizQuestion::MultipleChoice { question, options, correct } => {
            &&& question@.len() > 0
            &&& options@.len() >= 2
            &&& forall|i: int|
                0 <= i < options@.len() ==> 'a' <= (#[trigger] options@[i]).0 <= 'd'
                    && options@[i].1@.len() > 0
            &&& 'a' <= correct <= 'd'
        },
        QuizQuestion::FillInBlank { question, answer } => question@.len() > 0 && answer@.len() > 0
            && spec_find_from(question@, "___"@, 0) >= 0,
        QuizQuestion::ShortAnswer { question, expected } => question@.len() > 0 && expected@.len()
            > 0,
    }
}

/// The line's text after a `Q:`/`Q.` marker, a bold numbered marker, or a
/// plain numbered marker, trimmed; nothing when the line has no such
/// shape.  The recognizer is heuristic; its contract promises what every
/// caller relies on: a recognized question is non-empty and trimmed.
pub fn extract_question_text(line: &str) -> (r: Option<String>)
    ensures
        match r {
            Some(q) => q@.len() > 0 && spec_trim(q@) == q@,
            None => true,
        },
{
    let cv = chars_vec(line);
    let n = cv.len();
    let (lo, hi) = trim_bounds_range(&cv, 0, n);
    proof {
        assert(cv@.subrange(0, n as int) =~= cv@);
    }
    if hi - lo < 1 {
        return None;
    }

    // "Q:" or "Q." prefix
    if hi - lo >= 2 && cv[lo] == 'Q' && (cv[lo + 1] == ':' || cv[lo + 1] == '.') {
        let (a, b) = trim_bounds_range(&cv, lo + 2, hi);
        if a < b {
            let q = line.substring_char(a, b).to_owned();
            proof {
                crate::text::lemma_trim_of_trimmed(cv@, a as int, b as int);
            }
            return Some(q);
        }
        return None;
    }

    // markdown bold: "**<number>**<question>"
    if hi - lo >= 2 && cv[lo] == '*' && cv[lo + 1] == '*' {
        let mut p: usize = lo;
        while hi - p > 1 && cv[p] == '*' && cv[p + 1] == '*'
            invariant
                lo <= p <= hi <= cv@.len(),
            decreases hi - p,
        {
            p += 2;
        }
        // find the closing "**"
        let mut q: usize = p;
        let mut close: usize = hi;
        let mut found = false;
        while hi - q > 1
            invariant
                p <= q <= hi <= cv@.len(),
                close <= hi,
                found ==> p <= close && hi - close > 1 && cv@[close as int] == '*' && cv@[close
                    + 1] == '*',
            decreases hi - q,
        {
            if cv[q] == '*' && cv[q + 1] == '*' {
                close = q;
                found = true;
                break;
            }
            q += 1;
        }
        if found {
            // the part before the bold close must hold a digit
            let mut has_digit = false;
            let mut d: usize = p;
            while d < close
                invariant
                    p <= d <= close <= cv@.len(),
                decreases close - d,
            {
                if is_ascii_digit_char(cv[d]) {
                    has_digit = true;
                }
                d += 1;
            }
            if has_digit {
                // skip the closing bold markers and take the rest
                let mut rest: usize = close;
                while hi - rest > 1 && cv[rest] == '*' && cv[rest + 1] == '*'
                    invariant
                        close <= rest <= hi <= cv@.len(),
                    decreases hi - rest,
                {
                    rest += 2;
                }
                let (a, b) = trim_bounds_range(&cv, if rest < hi { rest } else { hi }, hi);
                if a < b {
                    let qs = line.substring_char(a, b).to_owned();
                    proof {
                        crate::text::lemma_trim_of_trimmed(cv@, a as int, b as int);
                    }
                    return Some(qs);
                }
                return None;
            }
        }
        return None;
    }

    // plain numbered: "12. question", "12) question", "12: question"
    if is_ascii_digit_char(cv[lo]) {
        let mut p: usize = lo;
        while p < hi && is_ascii_digit_char(cv[p])
            invariant
                lo <= p <= hi <= cv@.len(),
            decreases hi - p,
        {
            p += 1;
        }
        // skip the punctuation after the number
        while p < hi && (cv[p] == '.' || cv[p] == ')' || cv[p] == ':')
            invariant
                lo <= p <= hi <= cv@.len(),
            decreases hi - p,
        {
            p += 1;
        }
        let (a, b) = trim_bounds_range(&cv, p, hi);
        if a < b {
            let q = line.substring_char(a, b).to_owned();
            proof {
                crate::text::lemma_trim_of_trimmed(cv@, a as int, b as int);
            }
            return Some(q);
        }
        return None;
    }

    None
}

/// A lettered option line: the trimmed line must be at least three
/// characters, start with a letter `a` to `d` followed by `)`, `.` or
/// `:`, and carry non-empty text after them.
pub open spec fn spec_extract_option(line: Seq<char>) -> Option<(char, Seq<char>)> {
    let t = spec_trim(line);
    if t.len() < 3 {
        None
    } else if !('a' <= t[0] && t[0] <= 'd') {
        None
    } else if t[1] == ')' || t[1] == '.' || t[1] == ':' {
        let tx = spec_trim(t.skip(2));
        if tx.len() > 0 {
            Some((t[0], tx))
        } else {
            None
        }
    } else {
        None
    }
}

pub fn extract_option(line: &str) -> (r: Option<(char, String)>)
    ensures
        match (r, spec_extract_option(line@)) {
            (Some(p), Some(q)) => p.0 == q.0 && p.1@ == q.1 && p.1@.len() > 0 && 'a' <= p.0
                <= 'd',
            (None, None) => true,
            _ => false,
        },
{
    let cv = chars_vec(line);
    let n = cv.len();
    let (lo, hi) = trim_bounds_range(&cv, 0, n);
    proof {
        assert(cv@.subrange(0, n as int) =~= cv@);
    }
    let ghost t = spec_trim(line@);
    if hi - lo < 3 {
        return None;
    }
    let first = cv[lo];
    proof {
        assert(t[0] == cv@[lo as int]);
        assert(t[1] == cv@[lo + 1]);
    }
    if !('a' <= first && first <= 'd') {
        return None;
    }
    let sep = cv[lo + 1];
    if sep == ')' || sep == '.' || sep == ':' {
        let (a, b) = trim_bounds_range(&cv, lo + 2, hi);
        proof {
            assert(t.skip(2) =~= cv@.subrange(lo + 2, hi as int));
            assert(spec_trim(t.skip(2)) == cv@.subrange(a as int, b as int));
        }
        if a < b {
            let text = line.substring_char(a, b).to_owned();
            return Some((first, text));
        }
        return None;
    }
    None
}

/// The first character of the lower-cased line that falls in `a`..`d`.
pub open spec fn spec_first_ad(low: Seq<char>, k: int) -> Option<char>
    decreases low.len() - k,
    when 0 <= k
{
    if k >= low.len() {
        None
    } else if 'a' <= low[k] && low[k] <= 'd' {
        Some(low[k])
    } else {
        spec_first_ad(low, k + 1)
    }
}

/// The detected answer letter: among the next `budget` lines, the first
/// whose lower-cased text contains `answer` decides; its first character
/// in `a`..`d` is the letter (the word `answer` itself begins with one).
pub open spec fn spec_answer_letter(lines: Seq<Seq<char>>, from: int, budget: int) -> Option<char>
    decreases budget,
    when 0 <= budget
{
    if budget <= 0 || from < 0 || from >= lines.len() {
        None
    } else {
        let low = crate::text::spec_lower(lines[from]);
        if spec_find_from(low, "answer"@, 0) >= 0 {
            spec_first_ad(low, 0)
        } else {
            spec_answer_letter(lines, from + 1, budget - 1)
        }
    }
}

/// Scan up to three lines from `from` for one containing `answer`
/// (case-insensitively) and return the first character in `a`..`d` of its
/// lower-cased text.
pub fn find_answer_letter(lines: &Vec<String>, from: usize) -> (r: Option<char>)
    ensures
        r == spec_answer_letter(lines@.map_values(|x: String| x@), from as int, 3),
        match r {
            Some(c) => 'a' <= c <= 'd',
            None => true,
        },
{
    let ghost lv = lines@.map_values(|x: String| x@);
    let needle = chars_vec("answer");
    let mut i: usize = from;
    let mut budget: usize = 3;
    while i < lines.len() && budget > 0
        invariant
            from <= i,
            budget <= 3,
            lv == lines@.map_values(|x: String| x@),
            spec_answer_letter(lv, from as int, 3) == spec_answer_letter(
                lv,
                i as int,
                budget as int,
            ),
            needle@ == "answer"@,
        decreases budget,
    {
        let cv = chars_vec(lines[i].as_str());
        let cl = map_lower(&cv);
        proof {
            assert(lv[i as int] == lines@[i as int]@);
            assert(cl@ == crate::text::spec_lower(lv[i as int]));
        }
        let has = match find_in_chars(&cl, &needle) {
            Some(_) => true,
            None => false,
        };
        if has {
            proof {
                assert(spec_answer_letter(lv, i as int, budget as int) == spec_first_ad(cl@, 0));
            }
            let mut k: usize = 0;
            while k < cl.len()
                invariant
                    k <= cl@.len(),
                    lv == lines@.map_values(|x: String| x@),
                    spec_answer_letter(lv, from as int, 3) == spec_first_ad(cl@, 0),
                    spec_first_ad(cl@, 0) == spec_first_ad(cl@, k as int),
                decreases cl@.len() - k,
            {
                let c = cl[k];
                if 'a' <= c && c <= 'd' {
                    proof {
                        assert(spec_first_ad(cl@, k as int) == Some(c));
                    }
                    return Some(c);
                }
                k += 1;
            }
            proof {
                assert(spec_first_ad(cl@, k as int) is None);
            }
            return None;
        }
        i += 1;
        budget -= 1;
    }
    proof {
        assert(spec_answer_letter(lv, i as int, budget as int) is None);
    }
    None
}

/// Scan up to three lines from `from` for an `Answer:` line and return the
/// answer text with the markers stripped; the result is non-empty and
/// trimmed.
pub fn find_answer_text(lines: &Vec<String>, from: usize) -> (r: Option<String>)
    ensures
        match r {
            Some(t) => t@.len() > 0 && spec_trim(t@) == t@,
            None => true,
        },
{
    let answer_lower = chars_vec("answer");
    let mut i: usize = from;
    let mut seen: usize = 0;
    while i < lines.len() && seen < 3
        invariant
            from <= i,
        decreases lines@.len() - i,
    {
        let line = &lines[i];
        let cv = chars_vec(line.as_str());
        let cl = map_lower(&cv);
        let n = cv.len();
        let (lo, hi) = trim_bounds_range(&cv, 0, n);
        proof {
            assert(cv@.subrange(0, n as int) =~= cv@);
        }
        // does the trimmed line start with "answer" or "**answer"?
        let mut p: usize = lo;
        while hi - p > 1 && cv[p] == '*' && cv[p + 1] == '*'
            invariant
                lo <= p <= hi <= cv@.len(),
                cl@.len() == cv@.len(),
            decreases hi - p,
        {
            p += 2;
        }
        let matches_marker = hi - p >= answer_lower.len() && crate::text::range_matches(
            &cl,
            p,
            &answer_lower,
        );
        if matches_marker {
            // drop the marker word, then any `:` and bold markers
            let mut a: usize = p + answer_lower.len();
            if a > hi {
                a = hi;
            }
            while a < hi
                invariant
                    lo <= a <= hi <= cv@.len(),
                decreases hi - a,
            {
                if hi - a > 1 && cv[a] == '*' && cv[a + 1] == '*' {
                    a += 2;
                } else if cv[a] == ':' || crate::text::is_ws(cv[a]) {
                    a += 1;
                } else {
                    break;
                }
            }
            // drop trailing bold markers and whitespace
            let mut b: usize = hi;
            while b > a
                invariant
                    a <= b <= hi <= cv@.len(),
                decreases b,
            {
                if b - a >= 2 && cv[b - 1] == '*' && cv[b - 2] == '*' {
                    b -= 2;
                } else if crate::text::is_ws(cv[b - 1]) {
                    b -= 1;
                } else {
                    break;
                }
            }
            let (ta, tb) = trim_bounds_range(&cv, a, b);
            if ta < tb {
                let t = line.as_str().substring_char(ta, tb).to_owned();
                proof {
                    crate::text::lemma_trim_of_trimmed(cv@, ta as int, tb as int);
                }
                return Some(t);
            }
        }
        i += 1;
        seen += 1;
    }
    None
}

/// Split text into its lines (separated by `\n`, with a trailing `\r`
/// stripped from each line).
fn split_lines(text: &str) -> (r: Vec<String>)
{
    let cv = chars_vec(text);
    let mut r: Vec<String> = Vec::new();
    let mut start: usize = 0;
    let mut i: usize = 0;
    while i < cv.len()
        invariant
            start <= i <= cv@.len(),
            cv@ == text@,
        decreases cv@.len() - i,
    {
        if cv[i] == '\n' {
            let end = if i > start && cv[i - 1] == '\r' {
                i - 1
            } else {
                i
            };
            r.push(text.substring_char(start, end).to_owned());
            start = i + 1;
        }
        i += 1;
    }
    if start < cv.len() {
        let end = if cv.len() > start && cv[cv.len() - 1] == '\r' {
            cv.len() - 1
        } else {
            cv.len()
        };
        if start <= end {
            r.push(text.substring_char(start, end).to_owned());
        }
    }
    r
}

/// Parse quiz questions out of free-form generated text.
///
/// A numbered question followed by two or more lettered options becomes a
/// multiple-choice question (with the detected answer letter, `a` when
/// none is found); a question containing a blank (`___`) with an answer
/// line becomes fill-in-the-blank; any other question with an answer line
/// becomes short-answer.  Every parsed question is structurally sound; an
/// unrecognizable text parses to no questions, never to a guess.
pub fn parse_quiz_questions(text: &str) -> (r: Vec<QuizQuestion>)
    ensures
        forall|i: int| 0 <= i < r@.len() ==> spec_question_wf(#[trigger] r@[i]),
{
    let lines = split_lines(text);
    let blank = chars_vec("___");
    let mut questions: Vec<QuizQuestion> = Vec::new();
    let mut i: usize = 0;
    while i < lines.len()
        invariant
            blank@ == "___"@,
            forall|k: int| 0 <= k < questions@.len() ==> spec_question_wf(
                #[trigger] questions@[k],
            ),
        decreases lines@.len() - i,
    {
        let qt = extract_question_text(lines[i].as_str());
        match qt {
            Some(q_text) => {
                // gather option lines directly below
                let mut options: Vec<(char, String)> = Vec::new();
                let mut j: usize = i + 1;
                while j < lines.len()
                    invariant
                        i < j,
                        j <= lines@.len(),
                        forall|k: int|
                            0 <= k < options@.len() ==> 'a' <= (#[trigger] options@[k]).0 <= 'd'
                                && options@[k].1@.len() > 0,
                    decreases lines@.len() - j,
                {
                    match extract_option(lines[j].as_str()) {
                        Some(opt) => {
                            options.push(opt);
                            j += 1;
                        },
                        None => {
                            break;
                        },
                    }
                }

                if options.len() >= 2 {
                    let correct = find_answer_letter(&lines, j);
                    let skip: usize = match correct {
                        Some(_) => if j < lines.len() {
                            j + 1
                        } else {
                            j
                        },
                        None => j,
                    };
                    let c = match correct {
                        Some(c) => c,
                        None => 'a',
                    };
                    questions.push(
                        QuizQuestion::MultipleChoice { question: q_text, options, correct: c },
                    );
                    i = if skip > i {
                        skip
                    } else {
                        i + 1
                    };
                    continue;
                }

                // fill in the blank?
                let qv = chars_vec(q_text.as_str());
                let has_blank = match find_in_chars(&qv, &blank) {
                    Some(_) => true,
                    None => false,
                };
                if has_blank {
                    match find_answer_text(&lines, j) {
                        Some(answer) => {
                            questions.push(
                                QuizQuestion::FillInBlank { question: q_text, answer },
                            );
                            i = if j < lines.len() {
                                j + 1
                            } else {
                                j
                            };
                            continue;
                        },
                        None => {},
                    }
                } else {
                    match find_answer_text(&lines, i + 1) {
                        Some(expected) => {
                            questions.push(
                                QuizQuestion::ShortAnswer { question: q_text, expected },
                            );
                            i = if j < lines.len() {
                                j + 1
                            } else {
                                j
                            };
                            continue;
                        },
                        None => {},
                    }
                }
                i += 1;
            },
            None => {
                i += 1;
            },
        }
    }
    questions
}

} // verus!
