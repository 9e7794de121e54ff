//! Context assembly: truncating chunk text at sentence or paragraph
//! boundaries, converting a model's token window into a character budget,
//! and packing labeled context blocks into a hard character budget.
//!
//! All lengths count characters, so a cut can never split a character's
//! encoding, and an assembled context never exceeds its budget.

use vstd::prelude::*;

use crate::text::chars_vec;
use crate::text::{rfind_char, rfind_pair};

verus! {

/// Position of the last occurrence of the pair `c1 c2` in `s`, or -1.
pub open spec fn spec_rfind_pair(s: Seq<char>, c1: char, c2: char) -> int
    decreases s.len(),
{
    if s.len() < 2 {
        -1
    } else if s[s.len() - 2] == c1 && s[s.len() - 1] == c2 {
        s.len() - 2
    } else {
        spec_rfind_pair(s.drop_last(), c1, c2)
    }
}

/// Position of the last occurrence of `c` in `s`, or -1.
pub open spec fn spec_rfind_char(s: Seq<char>, c: char) -> int
    decreases s.len(),
{
    if s.len() == 0 {
        -1
    } else if s[s.len() - 1] == c {
        s.len() - 1
    } else {
        spec_rfind_char(s.drop_last(), c)
    }
}

pub proof fn lemma_rfind_pair_at(s: Seq<char>, c1: char, c2: char, i: int)
    requires
        0 <= i,
        i + 1 < s.len(),
        s[i] == c1,
        s[i + 1] == c2,
        forall|j: int| i < j && j + 1 < s.len() ==> !(#[trigger] s[j] == c1 && s[j + 1] == c2),
    ensures
        spec_rfind_pair(s, c1, c2) == i,
    decreases s.len(),
{
    if i + 2 == s.len() {
    } else {
        let d = s.drop_last();
        assert(forall|j: int|
            i < j && j + 1 < d.len() ==> !(#[trigger] d[j] == c1 && d[j + 1] == c2));
        lemma_rfind_pair_at(d, c1, c2, i);
    }
}

pub proof fn lemma_rfind_pair_none(s: Seq<char>, c1: char, c2: char)
    requires
        forall|j: int| 0 <= j && j + 1 < s.len() ==> !(#[trigger] s[j] == c1 && s[j + 1] == c2),
    ensures
        spec_rfind_pair(s, c1, c2) == -1,
    decreases s.len(),
{
    if s.len() >= 2 {
        let d = s.drop_last();
        assert(forall|j: int|
            0 <= j && j + 1 < d.len() ==> !(#[trigger] d[j] == c1 && d[j + 1] == c2));
        lemma_rfind_pair_none(d, c1, c2);
    }
}

pub proof fn lemma_rfind_char_at(s: Seq<char>, c: char, i: int)
    requires
        0 <= i < s.len(),
        s[i] == c,
        forall|j: int| i < j < s.len() ==> s[j] != c,
    ensures
        spec_rfind_char(s, c) == i,
    decreases s.len(),
{
    if i + 1 < s.len() {
        let d = s.drop_last();
        lemma_rfind_char_at(d, c, i);
    }
}

pub proof fn lemma_rfind_char_none(s: Seq<char>, c: char)
    requires
        forall|j: int| 0 <= j < s.len() ==> s[j] != c,
    ensures
        spec_rfind_char(s, c) == -1,
    decreases s.len(),
{
    if s.len() > 0 {
        lemma_rfind_char_none(s.drop_last(), c);
    }
}

/// The last-pair position is inside the text, two before its end at most.
pub proof fn lemma_rfind_pair_bounds(s: Seq<char>, c1: char, c2: char)
    ensures
        -1 <= spec_rfind_pair(s, c1, c2),
        spec_rfind_pair(s, c1, c2) >= 0 ==> spec_rfind_pair(s, c1, c2) + 2 <= s.len() && s[
            spec_rfind_pair(s, c1, c2)] == c1 && s[spec_rfind_pair(s, c1, c2) + 1] == c2,
    decreases s.len(),
{
    if s.len() >= 2 && !(s[s.len() - 2] == c1 && s[s.len() - 1] == c2) {
        lemma_rfind_pair_bounds(s.drop_last(), c1, c2);
    }
}

/// The last-character position is inside the text.
pub proof fn lemma_rfind_char_bounds(s: Seq<char>, c: char)
    ensures
        -1 <= spec_rfind_char(s, c) < s.len(),
        spec_rfind_char(s, c) >= 0 ==> s[spec_rfind_char(s, c)] == c,
    decreases s.len(),
{
    if s.len() > 0 && s[s.len() - 1] != c {
        lemma_rfind_char_bounds(s.drop_last(), c);
    }
}

/// Truncation at a friendly boundary: content that fits is returned
/// unchanged; otherwise the text is cut at `max_len` characters and the cut
/// moves back to the last sentence end, paragraph break or newline, in that
/// order; failing all three, the raw cut is marked with an ellipsis.
pub open spec fn spec_truncate(content: Seq<char>, max_len: int) -> Seq<char> {
    if content.len() <= max_len {
        content
    } else {
        let t = content.take(max_len);
        let sentence = spec_rfind_pair(t, '.', ' ');
        let paragraph = spec_rfind_pair(t, '\n', '\n');
        let newline = spec_rfind_char(t, '\n');
        if sentence >= 0 {
            t.take(sentence) + seq!['.']
        } else if paragraph >= 0 {
            t.take(paragraph)
        } else if newline >= 0 {
            t.take(newline)
        } else {
            t + seq!['.', '.', '.']
        }
    }
}

/// Truncate content to at most `max_len` characters (plus a three-character
/// ellipsis in the no-boundary case), cutting at a sentence end, paragraph
/// break or newline when one exists.
pub fn truncate_content(content: &str, max_len: usize) -> (r: String)
    ensures
        r@ == spec_truncate(content@, max_len as int),
        content@.len() <= max_len ==> r@ == content@,
        r@.len() <= max_len + 3,
{
    let cv = chars_vec(content);
    if cv.len() <= max_len {
        return content.to_owned();
    }
    let ghost t = content@.take(max_len as int);
    proof {
        assert(t =~= cv@.subrange(0, max_len as int));
    }
    if let Some(p) = rfind_pair(&cv, 0, max_len, '.', ' ') {
        proof {
            assert(forall|j: int|
                p < j && j + 1 < t.len() ==> !(#[trigger] t[j] == '.' && t[j + 1] == ' '));
            lemma_rfind_pair_at(t, '.', ' ', p as int);
        }
        let r = content.substring_char(0, p).to_owned().concat(".");
        proof {
            reveal_strlit(".");
            assert("."@ =~= seq!['.']);
            assert(content@.subrange(0, p as int) =~= t.take(p as int));
        }
        return r;
    }
    proof {
        assert(forall|j: int|
            0 <= j && j + 1 < t.len() ==> !(#[trigger] t[j] == '.' && t[j + 1] == ' '));
        lemma_rfind_pair_none(t, '.', ' ');
    }
    if let Some(p) = rfind_pair(&cv, 0, max_len, '\n', '\n') {
        proof {
            assert(forall|j: int|
                p < j && j + 1 < t.len() ==> !(#[trigger] t[j] == '\n' && t[j + 1] == '\n'));
            lemma_rfind_pair_at(t, '\n', '\n', p as int);
        }
        let r = content.substring_char(0, p).to_owned();
        proof {
            assert(content@.subrange(0, p as int) =~= t.take(p as int));
        }
        return r;
    }
    proof {
        assert(forall|j: int|
            0 <= j && j + 1 < t.len() ==> !(#[trigger] t[j] == '\n' && t[j + 1] == '\n'));
        lemma_rfind_pair_none(t, '\n', '\n');
    }
    if let Some(p) = rfind_char(&cv, 0, max_len, '\n') {
        proof {
            lemma_rfind_char_at(t, '\n', p as int);
        }
        let r = content.substring_char(0, p).to_owned();
        proof {
            assert(content@.subrange(0, p as int) =~= t.take(p as int));
        }
        return r;
    }
    proof {
        lemma_rfind_char_none(t, '\n');
    }
    let r = content.substring_char(0, max_len).to_owned().concat("...");
    proof {
        reveal_strlit("...");
        assert("..."@ =~= seq!['.', '.', '.']);
        assert(content@.subrange(0, max_len as int) =~= t);
    }
    r
}

/// The character budget left for retrieved context: the model's token
/// window at four characters per token, minus what the system prompt and
/// the conversation already use, clamped between 2000 and 30000
/// characters.
pub open spec fn spec_available_budget(sys: int, conv: int, tokens: int) -> int {
    let raw = tokens * 4 - (sys + conv);
    if raw < 2000 {
        2000
    } else if raw > 30000 {
        30000
    } else {
        raw
    }
}

pub fn available_context_chars(
    system_prompt_len: usize,
    conversation_len: usize,
    model_context_tokens: usize,
) -> (r: usize)
    ensures
        r as int == spec_available_budget(
            system_prompt_len as int,
            conversation_len as int,
            model_context_tokens as int,
        ),
        2000 <= r <= 30000,
{
    let total: u128 = (model_context_tokens as u128) * 4;
    let used: u128 = system_prompt_len as u128 + conversation_len as u128;
    let avail: u128 = if total > used {
        total - used
    } else {
        0
    };
    if avail < 2000 {
        2000
    } else if avail > 30000 {
        30000
    } else {
        avail as usize
    }
}

/// The decimal digit character for `d`.
pub open spec fn spec_digit_char(d: int) -> char {
    (('0' as u8) + (d as u8)) as char
}

/// The decimal rendering of a non-negative number.
pub open spec fn spec_decimal(n: int) -> Seq<char>
    decreases n,
{
    if n < 10 {
        seq![spec_digit_char(if n < 0 { 0 } else { n })]
    } else {
        spec_decimal(n / 10) + seq![spec_digit_char(n % 10)]
    }
}

/// The decimal rendering of a signed number.
pub open spec fn spec_decimal_i64(n: int) -> Seq<char> {
    if n >= 0 {
        spec_decimal(n)
    } else {
        seq!['-'] + spec_decimal(-n)
    }
}

fn digit_str(d: u64) -> (r: &'static str)
    requires
        d < 10,
    ensures
        r@ == seq![spec_digit_char(d as int)],
{
    let r = match d {
        0 => "0",
        1 => "1",
        2 => "2",
        3 => "3",
        4 => "4",
        5 => "5",
        6 => "6",
        7 => "7",
        8 => "8",
        _ => "9",
    };
    proof {
        reveal_strlit("0");
        reveal_strlit("1");
        reveal_strlit("2");
        reveal_strlit("3");
        reveal_strlit("4");
        reveal_strlit("5");
        reveal_strlit("6");
        reveal_strlit("7");
        reveal_strlit("8");
        reveal_strlit("9");
        assert(r@ =~= seq![spec_digit_char(d as int)]);
    }
    r
}

/// Renders a number in decimal.
pub fn decimal_string(n: u64) -> (r: String)
    ensures
        r@ == spec_decimal(n as int),
    decreases n,
{
    if n < 10 {
        digit_str(n).to_owned()
    } else {
        decimal_string(n / 10).concat(digit_str(n % 10))
    }
}

/// Renders a signed number in decimal.
pub fn decimal_string_i64(n: i64) -> (r: String)
    ensures
        r@ == spec_decimal_i64(n as int),
{
    if n >= 0 {
        decimal_string(n as u64)
    } else {
        let m = -(n as i128);
        let r = "-".to_owned().concat(decimal_string(m as u64).as_str());
        proof {
            reveal_strlit("-");
            assert("-"@ =~= seq!['-']);
        }
        r
    }
}

/// One labeled context block: the owning document's display name, the
/// chunk ordinal (absent for whole-document blocks), and the block text.
pub struct ContextBlock {
    pub doc_name: String,
    pub chunk_index: Option<i64>,
    pub content: String,
}

pub open spec fn block_views(blocks: Seq<ContextBlock>) -> Seq<(Seq<char>, Option<int>, Seq<char>)> {
    blocks.map_values(
        |b: ContextBlock|
            (
                b.doc_name@,
                match b.chunk_index {
                    Some(i) => Some(i as int),
                    None => None,
                },
                b.content@,
            ),
    )
}

/// The header line of a context block.
pub open spec fn spec_block_label(name: Seq<char>, idx: Option<int>) -> Seq<char> {
    match idx {
        Some(i) => "--- Document: "@ + name + " (chunk "@ + spec_decimal_i64(i) + ") ---\n"@,
        None => "--- Document: "@ + name + " ---\n"@,
    }
}

/// The assembled context: blocks are appended in order, each one's content
/// truncated to the room left under the budget (capped at 2000
/// characters), and assembly stops as soon as a block no longer fits.
pub open spec fn spec_assemble_from(
    blocks: Seq<(Seq<char>, Option<int>, Seq<char>)>,
    i: int,
    used: int,
    max: int,
    cap: int,
) -> Seq<char>
    decreases blocks.len() - i,
    when 0 <= i
{
    if i >= blocks.len() || used >= max {
        Seq::empty()
    } else {
        let label = spec_block_label(blocks[i].0, blocks[i].1);
        let remaining = max - used;
        if label.len() + 5 > remaining {
            Seq::empty()
        } else {
            let cb = if remaining - label.len() - 5 < cap {
                remaining - label.len() - 5
            } else {
                cap
            };
            let t = spec_truncate(blocks[i].2, cb);
            let blk = label + t + "\n\n"@;
            blk + spec_assemble_from(blocks, i + 1, used + blk.len(), max, cap)
        }
    }
}

/// Builds the header line of a context block.
fn block_label(b: &ContextBlock) -> (r: String)
    ensures
        r@ == spec_block_label(
            b.doc_name@,
            match b.chunk_index {
                Some(i) => Some(i as int),
                None => None,
            },
        ),
{
    match b.chunk_index {
        Some(i) => "--- Document: ".to_owned().concat(b.doc_name.as_str()).concat(
            " (chunk ",
        ).concat(decimal_string_i64(i).as_str()).concat(") ---\n"),
        None => "--- Document: ".to_owned().concat(b.doc_name.as_str()).concat(" ---\n"),
    }
}

/// Packs the blocks into a context string of at most `max_chars`
/// characters, each block's content held to at most `content_cap`
/// characters; the assembly never exceeds the budget.
pub fn assemble_context(blocks: &Vec<ContextBlock>, max_chars: usize, content_cap: usize) -> (r:
    String)
    ensures
        r@ == spec_assemble_from(block_views(blocks@), 0, 0, max_chars as int, content_cap as int),
        r@.len() <= max_chars,
{
    let ghost bv = block_views(blocks@);
    let mut out = String::new();
    let mut used: usize = 0;
    let mut i: usize = 0;
    while i < blocks.len()
        invariant
            i <= blocks@.len(),
            bv == block_views(blocks@),
            bv.len() == blocks@.len(),
            used == out@.len(),
            used <= max_chars,
            spec_assemble_from(bv, 0, 0, max_chars as int, content_cap as int) == out@
                + spec_assemble_from(
                bv,
                i as int,
                used as int,
                max_chars as int,
                content_cap as int,
            ),
        decreases blocks@.len() - i,
    {
        proof {
            assert(bv[i as int] == (
                blocks@[i as int].doc_name@,
                match blocks@[i as int].chunk_index {
                    Some(q) => Some(q as int),
                    None => None,
                },
                blocks@[i as int].content@,
            ));
        }
        if used >= max_chars {
            proof {
                assert(spec_assemble_from(
                    bv,
                    i as int,
                    used as int,
                    max_chars as int,
                    content_cap as int,
                ) =~= Seq::<char>::empty());
                assert(out@ + Seq::<char>::empty() =~= out@);
            }
            return out;
        }
        let remaining = max_chars - used;
        let label = block_label(&blocks[i]);
        let llen = label.as_str().unicode_len();
        if remaining <= 4 || llen > remaining - 5 {
            proof {
                assert(spec_assemble_from(
                    bv,
                    i as int,
                    used as int,
                    max_chars as int,
                    content_cap as int,
                ) =~= Seq::<char>::empty());
                assert(out@ + Seq::<char>::empty() =~= out@);
            }
            return out;
        }
        let cb: usize = if remaining - llen - 5 < content_cap {
            remaining - llen - 5
        } else {
            content_cap
        };
        let t = truncate_content(blocks[i].content.as_str(), cb);
        let tlen = t.as_str().unicode_len();
        out.append(label.as_str());
        out.append(t.as_str());
        out.append("\n\n");
        proof {
            reveal_strlit("\n\n");
            assert("\n\n"@.len() == 2);
        }
        used = used + llen + tlen + 2;
        proof {
            assert(used == out@.len());
            assert(tlen <= cb + 3);
            assert(used <= max_chars);
        }
        i += 1;
    }
    proof {
        assert(spec_assemble_from(bv, i as int, used as int, max_chars as int, content_cap as int)
            =~= Seq::<char>::empty());
        assert(out@ + Seq::<char>::empty() =~= out@);
    }
    out
}

} // verus!
