//! Character-level text utilities shared by the chunker, the query enhancer
//! and the context assembler.  Text is handled as sequences of characters;
//! cutting a text at a character index can therefore never split a character's
//! encoding.

use vstd::prelude::*;

verus! {

/// ASCII lower-casing of a single character, as a specification.
pub open spec fn spec_lower_char(c: char) -> char {
    if 'A' <= c && c <= 'Z' {
        ((c as u8) + 32) as char
    } else {
        c
    }
}

/// Maps `A`..`Z` to `a`..`z` and leaves every other character unchanged.
pub fn to_ascii_lower_char(c: char) -> (r: char)
    ensures
        r == spec_lower_char(c),
{
    if 'A' <= c && c <= 'Z' {
        ((c as u8) + 32) as char
    } else {
        c
    }
}

/// Case-insensitive character equality (ASCII case folding).
pub open spec fn spec_eq_ignore_case(a: char, b: char) -> bool {
    spec_lower_char(a) == spec_lower_char(b)
}

pub fn eq_ignore_case(a: char, b: char) -> (r: bool)
    ensures
        r == spec_eq_ignore_case(a, b),
{
    to_ascii_lower_char(a) == to_ascii_lower_char(b)
}

/// Whitespace, following Unicode's White_Space property (the set that
/// `char::is_whitespace` recognises).
pub open spec fn spec_is_ws(c: char) -> bool {
    let u = c as u32;
    ||| u == 0x20
    ||| (0x9 <= u && u <= 0xD)
    ||| u == 0x85
    ||| u == 0xA0
    ||| u == 0x1680
    ||| (0x2000 <= u && u <= 0x200A)
    ||| u == 0x2028
    ||| u == 0x2029
    ||| u == 0x202F
    ||| u == 0x205F
    ||| u == 0x3000
}

pub fn is_ws(c: char) -> (r: bool)
    ensures
        r == spec_is_ws(c),
{
    let u = c as u32;
    u == 0x20 || (0x9 <= u && u <= 0xD) || u == 0x85 || u == 0xA0 || u == 0x1680 || (0x2000 <= u
        && u <= 0x200A) || u == 0x2028 || u == 0x2029 || u == 0x202F || u == 0x205F || u == 0x3000
}

/// ASCII letters and digits, the token characters of word comparisons.
pub open spec fn spec_is_ascii_alnum(c: char) -> bool {
    ('a' <= c && c <= 'z') || ('A' <= c && c <= 'Z') || ('0' <= c && c <= '9')
}

pub fn is_ascii_alnum(c: char) -> (r: bool)
    ensures
        r == spec_is_ascii_alnum(c),
{
    ('a' <= c && c <= 'z') || ('A' <= c && c <= 'Z') || ('0' <= c && c <= '9')
}

pub open spec fn spec_is_ascii_digit(c: char) -> bool {
    '0' <= c && c <= '9'
}

pub fn is_ascii_digit_char(c: char) -> (r: bool)
    ensures
        r == spec_is_ascii_digit(c),
{
    '0' <= c && c <= '9'
}

/// The text with leading whitespace removed.
pub open spec fn spec_trim_start(s: Seq<char>) -> Seq<char>
    decreases s.len(),
{
    if s.len() == 0 {
        s
    } else if spec_is_ws(s[0]) {
        spec_trim_start(s.drop_first())
    } else {
        s
    }
}

/// The text with trailing whitespace removed.
pub open spec fn spec_trim_end(s: Seq<char>) -> Seq<char>
    decreases s.len(),
{
    if s.len() == 0 {
        s
    } else if spec_is_ws(s[s.len() - 1]) {
        spec_trim_end(s.drop_last())
    } else {
        s
    }
}

/// The text with whitespace removed from both ends.
pub open spec fn spec_trim(s: Seq<char>) -> Seq<char> {
    spec_trim_end(spec_trim_start(s))
}

pub proof fn lemma_trim_start_is_subrange(s: Seq<char>, k: int)
    requires
        0 <= k <= s.len(),
        forall|i: int| 0 <= i < k ==> spec_is_ws(s[i]),
        k < s.len() ==> !spec_is_ws(s[k]),
    ensures
        spec_trim_start(s) == s.subrange(k, s.len() as int),
    decreases k,
{
    if k == 0 {
        assert(spec_trim_start(s) =~= s.subrange(0, s.len() as int)) by {
            if s.len() > 0 && !spec_is_ws(s[0]) {
                assert(s.subrange(0, s.len() as int) =~= s);
            } else if s.len() == 0 {
                assert(s.subrange(0, 0) =~= s);
            }
        }
    } else {
        let d = s.drop_first();
        assert(forall|i: int| 0 <= i < k - 1 ==> spec_is_ws(#[trigger] d[i]));
        lemma_trim_start_is_subrange(d, k - 1);
        assert(d.subrange(k - 1, d.len() as int) =~= s.subrange(k, s.len() as int));
    }
}

pub proof fn lemma_trim_end_is_subrange(s: Seq<char>, k: int)
    requires
        0 <= k <= s.len(),
        forall|i: int| k <= i < s.len() ==> spec_is_ws(s[i]),
        k > 0 ==> !spec_is_ws(s[k - 1]),
    ensures
        spec_trim_end(s) == s.subrange(0, k),
    decreases s.len() - k,
{
    if k == s.len() {
        if s.len() == 0 || !spec_is_ws(s[s.len() - 1]) {
            assert(s.subrange(0, k) =~= s);
        } else {
            assert(false);
        }
    } else {
        let d = s.drop_last();
        lemma_trim_end_is_subrange(d, k);
        assert(d.subrange(0, k) =~= s.subrange(0, k));
    }
}

/// The trimmed text is the subrange between the first and the last
/// non-whitespace character.
pub proof fn lemma_trim_is_subrange(s: Seq<char>, a: int, b: int)
    requires
        0 <= a <= b <= s.len(),
        forall|i: int| 0 <= i < a ==> spec_is_ws(s[i]),
        forall|i: int| b <= i < s.len() ==> spec_is_ws(s[i]),
        a < b ==> !spec_is_ws(s[a]) && !spec_is_ws(s[b - 1]),
    ensures
        spec_trim(s) == s.subrange(a, b),
{
    if a < b {
        lemma_trim_start_is_subrange(s, a);
        let t = s.subrange(a, s.len() as int);
        lemma_trim_end_is_subrange(t, b - a);
        assert(t.subrange(0, b - a) =~= s.subrange(a, b));
    } else {
        // the whole text is whitespace
        lemma_trim_start_is_subrange(s, s.len() as int);
        let t = s.subrange(s.len() as int, s.len() as int);
        lemma_trim_end_is_subrange(t, 0);
        assert(t.subrange(0, 0) =~= s.subrange(a, b));
    }
}

/// Trimming a subrange that already starts and ends with non-whitespace
/// changes nothing.
pub proof fn lemma_trim_of_trimmed(s: Seq<char>, a: int, b: int)
    requires
        0 <= a < b <= s.len(),
        !spec_is_ws(s[a]),
        !spec_is_ws(s[b - 1]),
    ensures
        spec_trim(s.subrange(a, b)) == s.subrange(a, b),
{
    let w = s.subrange(a, b);
    lemma_trim_is_subrange(w, 0, w.len() as int);
    assert(w.subrange(0, w.len() as int) =~= w);
}

/// Finds the whitespace-trimmed subwindow of `chars[lo..hi)`.
pub fn trim_bounds_range(chars: &Vec<char>, lo: usize, hi: usize) -> (r: (usize, usize))
    requires
        lo <= hi <= chars@.len(),
    ensures
        lo <= r.0 <= r.1 <= hi,
        forall|i: int| lo <= i < r.0 ==> spec_is_ws(chars@[i]),
        forall|i: int| r.1 <= i < hi ==> spec_is_ws(chars@[i]),
        r.0 < r.1 ==> !spec_is_ws(chars@[r.0 as int]) && !spec_is_ws(chars@[r.1 - 1]),
        r.0 == r.1 ==> r.0 == lo,
        chars@.subrange(r.0 as int, r.1 as int) == spec_trim(chars@.subrange(lo as int, hi as int)),
{
    let mut a: usize = lo;
    while a < hi && is_ws(chars[a])
        invariant
            lo <= a <= hi <= chars@.len(),
            forall|i: int| lo <= i < a ==> spec_is_ws(chars@[i]),
        decreases hi - a,
    {
        a += 1;
    }
    if a == hi {
        proof {
            let w = chars@.subrange(lo as int, hi as int);
            lemma_trim_is_subrange(w, w.len() as int, w.len() as int);
            assert(w.subrange(w.len() as int, w.len() as int) =~= chars@.subrange(
                lo as int,
                lo as int,
            ));
        }
        return (lo, lo);
    }
    let mut b: usize = hi;
    while b > a && is_ws(chars[b - 1])
        invariant
            a <= b <= hi <= chars@.len(),
            a < hi,
            !spec_is_ws(chars@[a as int]),
            forall|i: int| b <= i < hi ==> spec_is_ws(chars@[i]),
        decreases b,
    {
        b -= 1;
    }
    proof {
        let w = chars@.subrange(lo as int, hi as int);
        lemma_trim_is_subrange(w, a - lo, b - lo);
        assert(w.subrange(a - lo, b - lo) =~= chars@.subrange(a as int, b as int));
    }
    (a, b)
}

/// Index of the last occurrence of `c` in `chars[lo..hi)`, if any.
pub fn rfind_char(chars: &Vec<char>, lo: usize, hi: usize, c: char) -> (r: Option<usize>)
    requires
        lo <= hi <= chars@.len(),
    ensures
        match r {
            Some(i) => lo <= i < hi && chars@[i as int] == c && forall|j: int|
                i < j < hi ==> chars@[j] != c,
            None => forall|j: int| lo <= j < hi ==> chars@[j] != c,
        },
{
    let mut k: usize = hi;
    while k > lo
        invariant
            lo <= k <= hi <= chars@.len(),
            forall|j: int| k <= j < hi ==> chars@[j] != c,
        decreases k,
    {
        k -= 1;
        if chars[k] == c {
            return Some(k);
        }
    }
    None
}

/// Index of the last occurrence of the pair `c1 c2` in `chars[lo..hi)`, if
/// any; a match at `i` means `chars[i] == c1` and `chars[i + 1] == c2` with
/// `i + 1 < hi`.
pub fn rfind_pair(chars: &Vec<char>, lo: usize, hi: usize, c1: char, c2: char) -> (r: Option<
    usize,
>)
    requires
        lo <= hi <= chars@.len(),
    ensures
        match r {
            Some(i) => lo <= i && i + 1 < hi && chars@[i as int] == c1 && chars@[i + 1] == c2
                && forall|j: int|
                #![trigger chars@[j]]
                i < j && j + 1 < hi ==> !(chars@[j] == c1 && chars@[j + 1] == c2),
            None => forall|j: int|
                #![trigger chars@[j]]
                lo <= j && j + 1 < hi ==> !(chars@[j] == c1 && chars@[j + 1] == c2),
        },
{
    if hi - lo < 2 {
        return None;
    }
    let mut k: usize = hi - 1;
    while k > lo
        invariant
            lo <= k <= hi - 1,
            hi <= chars@.len(),
            forall|j: int|
                #![trigger chars@[j]]
                k <= j && j + 1 < hi ==> !(chars@[j] == c1 && chars@[j + 1] == c2),
        decreases k,
    {
        k -= 1;
        if chars[k] == c1 && chars[k + 1] == c2 {
            return Some(k);
        }
    }
    None
}

/// Collects the characters of a string slice into a vector.
pub fn chars_vec(s: &str) -> (r: Vec<char>)
    ensures
        r@ == s@,
{
    let mut v: Vec<char> = Vec::new();
    for c in it: s.chars()
        invariant
            it.seq() == s@,
            v@ == it.seq().subrange(0, it.index() as int),
    {
        v.push(c);
    }
    proof {
        assert(v@ =~= s@);
    }
    v
}

/// The text mapped to ASCII lower case, character by character.
pub open spec fn spec_lower(s: Seq<char>) -> Seq<char> {
    s.map_values(|c: char| spec_lower_char(c))
}

pub proof fn lemma_lower_subrange(s: Seq<char>, a: int, b: int)
    requires
        0 <= a <= b <= s.len(),
    ensures
        spec_lower(s).subrange(a, b) == spec_lower(s.subrange(a, b)),
{
    assert(spec_lower(s).subrange(a, b) =~= spec_lower(s.subrange(a, b)));
}

/// Maps every character of `v` to ASCII lower case.
pub fn map_lower(v: &Vec<char>) -> (r: Vec<char>)
    ensures
        r@ == spec_lower(v@),
{
    let mut r: Vec<char> = Vec::new();
    let mut i: usize = 0;
    while i < v.len()
        invariant
            i <= v@.len(),
            r@.len() == i,
            forall|j: int| 0 <= j < i ==> r@[j] == spec_lower_char(v@[j]),
        decreases v@.len() - i,
    {
        r.push(to_ascii_lower_char(v[i]));
        i += 1;
    }
    proof {
        assert(r@ =~= spec_lower(v@));
    }
    r
}

/// First position at or after `lo` (and before `hi`) holding a
/// non-whitespace character, or `hi` if there is none.
pub fn skip_ws(chars: &Vec<char>, lo: usize, hi: usize) -> (a: usize)
    requires
        lo <= hi <= chars@.len(),
    ensures
        lo <= a <= hi,
        forall|i: int| lo <= i < a ==> spec_is_ws(chars@[i]),
        a < hi ==> !spec_is_ws(chars@[a as int]),
{
    let mut a: usize = lo;
    while a < hi && is_ws(chars[a])
        invariant
            lo <= a <= hi <= chars@.len(),
            forall|i: int| lo <= i < a ==> spec_is_ws(chars@[i]),
        decreases hi - a,
    {
        a += 1;
    }
    a
}

/// The text with every trailing occurrence of `c` removed.
pub open spec fn spec_drop_trailing(s: Seq<char>, c: char) -> Seq<char>
    decreases s.len(),
{
    if s.len() > 0 && s[s.len() - 1] == c {
        spec_drop_trailing(s.drop_last(), c)
    } else {
        s
    }
}

pub proof fn lemma_drop_trailing_is_subrange(s: Seq<char>, c: char, k: int)
    requires
        0 <= k <= s.len(),
        forall|i: int| k <= i < s.len() ==> s[i] == c,
        k > 0 ==> s[k - 1] != c,
    ensures
        spec_drop_trailing(s, c) == s.subrange(0, k),
    decreases s.len() - k,
{
    if k == s.len() {
        assert(s.subrange(0, k) =~= s);
    } else {
        let d = s.drop_last();
        lemma_drop_trailing_is_subrange(d, c, k);
        assert(d.subrange(0, k) =~= s.subrange(0, k));
    }
}

/// Whether `needle` occurs in `hay` starting at position `at`.
pub open spec fn spec_matches_at(hay: Seq<char>, at: int, needle: Seq<char>) -> bool {
    0 <= at && at + needle.len() <= hay.len() && hay.subrange(at, at + needle.len()) == needle
}

/// Compares `hay[at..at + needle.len())` against `needle`.
pub fn range_matches(hay: &Vec<char>, at: usize, needle: &Vec<char>) -> (r: bool)
    requires
        at <= hay@.len(),
    ensures
        r == spec_matches_at(hay@, at as int, needle@),
{
    if hay.len() - at < needle.len() {
        proof {
            assert(!spec_matches_at(hay@, at as int, needle@));
        }
        return false;
    }
    let mut i: usize = 0;
    while i < needle.len()
        invariant
            at + needle@.len() <= hay@.len(),
            hay@.len() <= usize::MAX,
            i <= needle@.len(),
            forall|j: int| 0 <= j < i ==> hay@[at + j] == needle@[j],
        decreases needle@.len() - i,
    {
        if hay[at + i] != needle[i] {
            proof {
                assert(hay@.subrange(at as int, at + needle@.len())[i as int] != needle@[i as int]);
            }
            return false;
        }
        i += 1;
    }
    proof {
        assert(hay@.subrange(at as int, at + needle@.len()) =~= needle@);
    }
    true
}

/// End of the run of non-whitespace characters starting at `i`.
pub open spec fn run_end(s: Seq<char>, i: int) -> int
    decreases s.len() - i,
{
    if i < 0 || i >= s.len() || spec_is_ws(s[i]) {
        i
    } else {
        run_end(s, i + 1)
    }
}

pub proof fn lemma_run_end(s: Seq<char>, i: int)
    requires
        0 <= i <= s.len(),
    ensures
        i <= run_end(s, i) <= s.len(),
        forall|j: int| i <= j < run_end(s, i) ==> !spec_is_ws(s[j]),
        run_end(s, i) < s.len() ==> spec_is_ws(s[run_end(s, i)]),
        i < s.len() && !spec_is_ws(s[i]) ==> run_end(s, i) > i,
    decreases s.len() - i,
{
    if i < s.len() && !spec_is_ws(s[i]) {
        lemma_run_end(s, i + 1);
    }
}

/// The maximal whitespace-separated word spans of `s`, scanning from `i`.
pub open spec fn word_spans_from(s: Seq<char>, i: int) -> Seq<(int, int)>
    decreases s.len() - i,
    when 0 <= i
    via word_spans_from_decreases
{
    if i >= s.len() {
        Seq::empty()
    } else if spec_is_ws(s[i]) {
        word_spans_from(s, i + 1)
    } else {
        seq![(i, run_end(s, i))] + word_spans_from(s, run_end(s, i))
    }
}

#[via_fn]
proof fn word_spans_from_decreases(s: Seq<char>, i: int) {
    if 0 <= i < s.len() && !spec_is_ws(s[i]) {
        lemma_run_end(s, i);
    }
}

/// The whitespace-separated words of `s`.
pub open spec fn spec_words(s: Seq<char>) -> Seq<Seq<char>> {
    word_spans_from(s, 0).map_values(|p: (int, int)| s.subrange(p.0, p.1))
}

/// Computes the word spans of `v`, in order.
pub fn word_spans(v: &Vec<char>) -> (r: Vec<(usize, usize)>)
    ensures
        r@.map_values(|p: (usize, usize)| (p.0 as int, p.1 as int)) == word_spans_from(v@, 0),
        forall|k: int| 0 <= k < r@.len() ==> (#[trigger] r@[k]).0 < r@[k].1 <= v@.len(),
{
    let mut r: Vec<(usize, usize)> = Vec::new();
    let mut i: usize = 0;
    while i < v.len()
        invariant
            i <= v@.len(),
            word_spans_from(v@, 0) == r@.map_values(|p: (usize, usize)| (p.0 as int, p.1 as int))
                + word_spans_from(v@, i as int),
            forall|k: int| 0 <= k < r@.len() ==> (#[trigger] r@[k]).0 < r@[k].1 <= v@.len(),
        decreases v@.len() - i,
    {
        let ghost pre = r@;
        if is_ws(v[i]) {
            i += 1;
            proof {
                assert(pre.map_values(|p: (usize, usize)| (p.0 as int, p.1 as int))
                    + word_spans_from(v@, i - 1) =~= pre.map_values(
                    |p: (usize, usize)| (p.0 as int, p.1 as int),
                ) + word_spans_from(v@, i as int));
            }
        } else {
            let mut j: usize = i + 1;
            while j < v.len() && !is_ws(v[j])
                invariant
                    i < j <= v@.len(),
                    run_end(v@, i as int) == run_end(v@, j as int),
                decreases v@.len() - j,
            {
                j += 1;
            }
            proof {
                assert(run_end(v@, j as int) == j);
                lemma_run_end(v@, i as int);
            }
            r.push((i, j));
            proof {
                assert(word_spans_from(v@, i as int) =~= seq![(i as int, j as int)]
                    + word_spans_from(v@, j as int));
                assert(r@.map_values(|p: (usize, usize)| (p.0 as int, p.1 as int)) =~= pre.map_values(
                    |p: (usize, usize)| (p.0 as int, p.1 as int),
                ) + seq![(i as int, j as int)]);
                assert(pre.map_values(|p: (usize, usize)| (p.0 as int, p.1 as int))
                    + word_spans_from(v@, i as int) =~= r@.map_values(
                    |p: (usize, usize)| (p.0 as int, p.1 as int),
                ) + word_spans_from(v@, j as int));
            }
            i = j;
        }
    }
    proof {
        assert(word_spans_from(v@, i as int) =~= Seq::<(int, int)>::empty());
        assert(r@.map_values(|p: (usize, usize)| (p.0 as int, p.1 as int))
            + Seq::<(int, int)>::empty() =~= r@.map_values(
            |p: (usize, usize)| (p.0 as int, p.1 as int),
        ));
    }
    r
}

/// Copies `v[lo..hi)` into a fresh vector.
pub fn copy_range(v: &Vec<char>, lo: usize, hi: usize) -> (r: Vec<char>)
    requires
        lo <= hi <= v@.len(),
    ensures
        r@ == v@.subrange(lo as int, hi as int),
{
    let mut r: Vec<char> = Vec::new();
    let mut i: usize = lo;
    while i < hi
        invariant
            lo <= i <= hi <= v@.len(),
            r@ =~= v@.subrange(lo as int, i as int),
        decreases hi - i,
    {
        r.push(v[i]);
        i += 1;
        proof {
            assert(r@ =~= v@.subrange(lo as int, i as int));
        }
    }
    r
}

/// Equality of two character vectors.
pub fn chars_eq(a: &Vec<char>, b: &Vec<char>) -> (r: bool)
    ensures
        r == (a@ == b@),
{
    if a.len() != b.len() {
        proof {
            assert(a@ != b@);
        }
        return false;
    }
    let mut i: usize = 0;
    while i < a.len()
        invariant
            a@.len() == b@.len(),
            i <= a@.len(),
            forall|j: int| 0 <= j < i ==> a@[j] == b@[j],
        decreases a@.len() - i,
    {
        if a[i] != b[i] {
            return false;
        }
        i += 1;
    }
    proof {
        assert(a@ =~= b@);
    }
    true
}

/// Position of the first line break at or after `i`.
pub open spec fn line_end(s: Seq<char>, i: int) -> int
    decreases s.len() - i,
{
    if i < 0 || i >= s.len() || s[i] == '\n' {
        i
    } else {
        line_end(s, i + 1)
    }
}

pub proof fn lemma_line_end(s: Seq<char>, i: int)
    requires
        0 <= i <= s.len(),
    ensures
        i <= line_end(s, i) <= s.len(),
        forall|j: int| i <= j < line_end(s, i) ==> s[j] != '\n',
        line_end(s, i) < s.len() ==> s[line_end(s, i)] == '\n',
    decreases s.len() - i,
{
    if i < s.len() && s[i] != '\n' {
        lemma_line_end(s, i + 1);
    }
}

/// The single-character string for the lower-cased form of a capital
/// letter.
fn lower_char_str(c: char) -> (r: &'static str)
    requires
        'A' <= c <= 'Z',
    ensures
        r@ == seq![spec_lower_char(c)],
{
    let r = match c {
        'A' => "a",
        'B' => "b",
        'C' => "c",
        'D' => "d",
        'E' => "e",
        'F' => "f",
        'G' => "g",
        'H' => "h",
        'I' => "i",
        'J' => "j",
        'K' => "k",
        'L' => "l",
        'M' => "m",
        'N' => "n",
        'O' => "o",
        'P' => "p",
        'Q' => "q",
        'R' => "r",
        'S' => "s",
        'T' => "t",
        'U' => "u",
        'V' => "v",
        'W' => "w",
        'X' => "x",
        'Y' => "y",
        'Z' => "z",
        _ => "z",
    };
    proof {
        reveal_strlit("a");
        reveal_strlit("b");
        reveal_strlit("c");
        reveal_strlit("d");
        reveal_strlit("e");
        reveal_strlit("f");
        reveal_strlit("g");
        reveal_strlit("h");
        reveal_strlit("i");
        reveal_strlit("j");
        reveal_strlit("k");
        reveal_strlit("l");
        reveal_strlit("m");
        reveal_strlit("n");
        reveal_strlit("o");
        reveal_strlit("p");
        reveal_strlit("q");
        reveal_strlit("r");
        reveal_strlit("s");
        reveal_strlit("t");
        reveal_strlit("u");
        reveal_strlit("v");
        reveal_strlit("w");
        reveal_strlit("x");
        reveal_strlit("y");
        reveal_strlit("z");
        assert(r@ =~= seq![spec_lower_char(c)]);
    }
    r
}

/// Appends `src[lo..hi)` to `out`, mapped to ASCII lower case.
pub fn append_lowered(out: &mut String, src: &str, lo: usize, hi: usize)
    requires
        lo <= hi <= src@.len(),
    ensures
        final(out)@ == old(out)@ + spec_lower(src@.subrange(lo as int, hi as int)),
{
    let mut q: usize = lo;
    proof {
        assert(out@ + spec_lower(src@.subrange(lo as int, lo as int)) =~= out@);
    }
    while q < hi
        invariant
            lo <= q <= hi <= src@.len(),
            out@ == old(out)@ + spec_lower(src@.subrange(lo as int, q as int)),
        decreases hi - q,
    {
        let c = src.get_char(q);
        if 'A' <= c && c <= 'Z' {
            out.append(lower_char_str(c));
        } else {
            out.append(src.substring_char(q, q + 1));
            proof {
                assert(src@.subrange(q as int, q + 1) =~= seq![src@[q as int]]);
                assert(spec_lower_char(src@[q as int]) == src@[q as int]);
            }
        }
        q += 1;
        proof {
            assert(spec_lower(src@.subrange(lo as int, q as int)) =~= spec_lower(
                src@.subrange(lo as int, q - 1),
            ) + seq![spec_lower_char(src@[q - 1])]);
        }
    }
}

} // verus!
