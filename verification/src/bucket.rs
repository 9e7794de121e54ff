//! Buckets: isolated named collections of documents.
//!
//! Bucket names are normalized so that two different user-typed names can
//! neither collide nor diverge: lower-cased, whitespace replaced by
//! dashes, everything but letters, digits, dashes and underscores
//! stripped.  The kept classes are deliberately ASCII, so a normalized
//! name is always a portable directory name.  Creating, listing and deleting bucket directories is the
//! surrounding program's work; the name and path rules live here.

use vstd::prelude::*;

use crate::text::{
    chars_vec, is_ascii_alnum, is_ws, spec_is_ascii_alnum, spec_is_ws, spec_lower_char,
    spec_trim, to_ascii_lower_char, trim_bounds_range,
};

verus! {

/// A knowledge bucket: its normalized name and its directory path.
#[derive(Debug, Clone)]
pub struct Bucket {
    pub name: String,
    pub path: String,
}

/// A character as it appears in a sanitized name: lower-cased, with
/// whitespace turned into a dash; characters that are not letters,
/// digits, dashes or underscores are dropped.
pub open spec fn spec_sanitize_char(c: char) -> Option<char> {
    let l = spec_lower_char(c);
    let m = if spec_is_ws(l) { '-' } else { l };
    if spec_is_ascii_alnum(m) || m == '-' || m == '_' {
        Some(m)
    } else {
        None
    }
}

/// The sanitized form of a (trimmed) name.
pub open spec fn spec_sanitize_from(s: Seq<char>, i: int) -> Seq<char>
    decreases s.len() - i,
    when 0 <= i
{
    if i >= s.len() {
        Seq::empty()
    } else {
        match spec_sanitize_char(s[i]) {
            Some(c) => seq![c] + spec_sanitize_from(s, i + 1),
            None => spec_sanitize_from(s, i + 1),
        }
    }
}

/// The normalized form of a bucket name.
pub open spec fn spec_sanitize_name(name: Seq<char>) -> Seq<char> {
    spec_sanitize_from(spec_trim(name), 0)
}

/// The single-character string for a kept sanitized character.
fn sanitized_char_str(c: char) -> (r: &'static str)
    requires
        spec_is_ascii_alnum(c) && ('a' <= c <= 'z' || '0' <= c <= '9') || c == '-' || c == '_',
    ensures
        r@ == seq![c],
{
    let r = match c {
        'a' => "a",
        'b' => "b",
        'c' => "c",
        'd' => "d",
        'e' => "e",
        'f' => "f",
        'g' => "g",
        'h' => "h",
        'i' => "i",
        'j' => "j",
        'k' => "k",
        'l' => "l",
        'm' => "m",
        'n' => "n",
        'o' => "o",
        'p' => "p",
        'q' => "q",
        'r' => "r",
        's' => "s",
        't' => "t",
        'u' => "u",
        'v' => "v",
        'w' => "w",
        'x' => "x",
        'y' => "y",
        'z' => "z",
        '0' => "0",
        '1' => "1",
        '2' => "2",
        '3' => "3",
        '4' => "4",
        '5' => "5",
        '6' => "6",
        '7' => "7",
        '8' => "8",
        '9' => "9",
        '-' => "-",
        _ => "_",
    };
    proof {
        reveal_strlit("a");
        reveal_strlit("b");
        reveal_strlit("c");
        reveal_strlit("d");
        reveal_strlit("e");
        reveal_strlit("f");
        reveal_strlit("g");
        reveal_strlit("h");
        reveal_strlit("i");
        reveal_strlit("j");
        reveal_strlit("k");
        reveal_strlit("l");
        reveal_strlit("m");
        reveal_strlit("n");
        reveal_strlit("o");
        reveal_strlit("p");
        reveal_strlit("q");
        reveal_strlit("r");
        reveal_strlit("s");
        reveal_strlit("t");
        reveal_strlit("u");
        reveal_strlit("v");
        reveal_strlit("w");
        reveal_strlit("x");
        reveal_strlit("y");
        reveal_strlit("z");
        reveal_strlit("0");
        reveal_strlit("1");
        reveal_strlit("2");
        reveal_strlit("3");
        reveal_strlit("4");
        reveal_strlit("5");
        reveal_strlit("6");
        reveal_strlit("7");
        reveal_strlit("8");
        reveal_strlit("9");
        reveal_strlit("-");
        reveal_strlit("_");
        assert(r@ =~= seq![c]);
    }
    r
}

/// Normalize a bucket name: trim it, lower-case it, turn whitespace into
/// dashes, and drop everything but letters, digits, dashes and
/// underscores.
pub fn sanitize_name(name: &str) -> (r: String)
    ensures
        r@ == spec_sanitize_name(name@),
{
    let cv = chars_vec(name);
    let n = cv.len();
    let (lo, hi) = trim_bounds_range(&cv, 0, n);
    proof {
        assert(cv@.subrange(0, n as int) =~= cv@);
    }
    let ghost t = spec_trim(name@);
    let mut out = String::new();
    let mut i: usize = lo;
    while i < hi
        invariant
            lo <= i <= hi <= cv@.len(),
            cv@ == name@,
            t == spec_trim(name@),
            t == cv@.subrange(lo as int, hi as int),
            spec_sanitize_from(t, 0) == out@ + spec_sanitize_from(t, i - lo),
        decreases hi - i,
    {
        proof {
            assert(t[i - lo] == cv@[i as int]);
        }
        let c = cv[i];
        let l = to_ascii_lower_char(c);
        let m = if is_ws(l) {
            '-'
        } else {
            l
        };
        if is_ascii_alnum(m) || m == '-' || m == '_' {
            proof {
                assert(spec_sanitize_char(cv@[i as int]) == Some(m));
                // a lower-cased alphanumeric is a small letter or digit
                if spec_is_ascii_alnum(m) {
                    assert('a' <= m <= 'z' || '0' <= m <= '9');
                }
            }
            out.append(sanitized_char_str(m));
        } else {
            proof {
                assert(spec_sanitize_char(cv@[i as int]) is None);
            }
        }
        i += 1;
    }
    proof {
        assert(spec_sanitize_from(t, i - lo) =~= Seq::<char>::empty());
        assert(out@ + Seq::<char>::empty() =~= out@);
    }
    out
}

/// Sanitizing is idempotent: a sanitized name passes through unchanged,
/// so two different user-typed names can neither collide nor diverge
/// after repeated normalization.
pub proof fn lemma_sanitize_idempotent(name: Seq<char>)
    ensures
        spec_sanitize_name(spec_sanitize_name(name)) == spec_sanitize_name(name),
{
    let s = spec_sanitize_name(name);
    lemma_sanitize_chars_kept(spec_trim(name), 0);
    lemma_trim_of_kept(s);
    lemma_sanitize_of_kept(s, 0);
}

/// Every character of a sanitized name is a kept character.
proof fn lemma_sanitize_chars_kept(t: Seq<char>, i: int)
    requires
        0 <= i,
    ensures
        forall|k: int|
            0 <= k < spec_sanitize_from(t, i).len() ==> kept_char(
                #[trigger] spec_sanitize_from(t, i)[k],
            ),
    decreases t.len() - i,
{
    if i < t.len() {
        lemma_sanitize_chars_kept(t, i + 1);
        match spec_sanitize_char(t[i]) {
            Some(c) => {
                assert(kept_char(c));
                assert forall|k: int|
                    0 <= k < spec_sanitize_from(t, i).len() implies kept_char(
                    #[trigger] spec_sanitize_from(t, i)[k],
                ) by {
                    if k > 0 {
                        assert(spec_sanitize_from(t, i)[k] == spec_sanitize_from(t, i + 1)[k - 1]);
                    }
                }
            },
            None => {},
        }
    }
}

/// A character that sanitizing keeps: a small letter, a digit, a dash or
/// an underscore.
pub open spec fn kept_char(c: char) -> bool {
    ('a' <= c && c <= 'z') || ('0' <= c && c <= '9') || c == '-' || c == '_'
}

/// Kept characters are not whitespace, so trimming a kept string changes
/// nothing.
proof fn lemma_trim_of_kept(s: Seq<char>)
    requires
        forall|k: int| 0 <= k < s.len() ==> kept_char(#[trigger] s[k]),
    ensures
        spec_trim(s) == s,
{
    if s.len() == 0 {
        crate::text::lemma_trim_is_subrange(s, 0, 0);
        assert(s.subrange(0, 0) =~= s);
    } else {
        assert(!spec_is_ws(s[0]));
        assert(!spec_is_ws(s[s.len() - 1]));
        crate::text::lemma_trim_is_subrange(s, 0, s.len() as int);
        assert(s.subrange(0, s.len() as int) =~= s);
    }
}

/// Sanitizing keeps a kept string unchanged.
proof fn lemma_sanitize_of_kept(s: Seq<char>, i: int)
    requires
        0 <= i <= s.len(),
        forall|k: int| 0 <= k < s.len() ==> kept_char(#[trigger] s[k]),
    ensures
        spec_sanitize_from(s, i) == s.skip(i),
    decreases s.len() - i,
{
    if i >= s.len() {
        assert(s.skip(i) =~= Seq::<char>::empty());
    } else {
        assert(kept_char(s[i]));
        assert(spec_sanitize_char(s[i]) == Some(s[i]));
        lemma_sanitize_of_kept(s, i + 1);
        assert(seq![s[i]] + s.skip(i + 1) =~= s.skip(i));
    }
}

impl Bucket {
    /// The database file path inside this bucket's directory.
    pub fn db_path(&self) -> (r: String)
        ensures
            r@ == self.path@ + "/documents.db"@,
    {
        self.path.clone().concat("/documents.db")
    }
}

} // verus!
