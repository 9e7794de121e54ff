//! The decisions of a chat turn: sizing the conversation, deriving a
//! conversation title from the first message, and composing the prompt
//! that carries the retrieved context.  Reading input, streaming the reply
//! and persisting messages belong to the surrounding program.

use vstd::prelude::*;

use crate::context::spec_rfind_char;
use crate::text::{chars_vec, rfind_char};

verus! {

/// One message of a conversation.
#[derive(Debug, Clone)]
pub struct Message {
    pub role: String,
    pub content: String,
}

/// The characters a conversation occupies: the sum of its messages'
/// content lengths, saturating at the machine limit.
pub open spec fn spec_conversation_chars(msgs: Seq<Message>, i: int) -> int
    decreases msgs.len() - i,
    when 0 <= i
{
    if i >= msgs.len() {
        0
    } else {
        let rest = spec_conversation_chars(msgs, i + 1);
        if msgs[i].content@.len() + rest > usize::MAX {
            usize::MAX as int
        } else {
            msgs[i].content@.len() + rest
        }
    }
}

pub fn conversation_chars(msgs: &Vec<Message>) -> (r: usize)
    ensures
        r as int == spec_conversation_chars(msgs@, 0),
{
    let mut total: usize = 0;
    let n = msgs.len();
    let mut i: usize = n;
    while i > 0
        invariant
            i <= n == msgs@.len(),
            total as int == spec_conversation_chars(msgs@, i as int),
        decreases i,
    {
        i -= 1;
        let len = msgs[i].content.as_str().unicode_len();
        total = if total > usize::MAX - len {
            usize::MAX
        } else {
            total + len
        };
    }
    total
}

/// The conversation title derived from the first message: its first sixty
/// characters, cut back to the last space when one is there.
pub open spec fn spec_derive_title(input: Seq<char>) -> Seq<char> {
    let t = if input.len() <= 60 {
        input
    } else {
        input.take(60)
    };
    let p = spec_rfind_char(t, ' ');
    if p >= 0 {
        t.take(p)
    } else {
        t
    }
}

pub fn derive_title(input: &str) -> (r: String)
    ensures
        r@ == spec_derive_title(input@),
{
    let cv = chars_vec(input);
    let n = cv.len();
    let cut = if n <= 60 {
        n
    } else {
        60
    };
    let ghost head = if input@.len() <= 60 { input@ } else { input@.take(60) };
    proof {
        assert(head =~= cv@.subrange(0, cut as int));
    }
    match rfind_char(&cv, 0, cut, ' ') {
        Some(p) => {
            proof {
                crate::context::lemma_rfind_char_at(head, ' ', p as int);
                assert(input@.subrange(0, p as int) =~= head.take(p as int));
            }
            input.substring_char(0, p).to_owned()
        },
        None => {
            proof {
                crate::context::lemma_rfind_char_none(head, ' ');
            }
            input.substring_char(0, cut).to_owned()
        },
    }
}

/// The user message handed to the chat collaborator: the question alone
/// when no context was retrieved, otherwise the context block followed by
/// the question.
pub open spec fn spec_compose_user_message(context: Seq<char>, input: Seq<char>) -> Seq<char> {
    if context.len() == 0 {
        input
    } else {
        "CONTEXT FROM YOUR STUDY MATERIALS:\n"@ + context + "\n\n---\n\nQUESTION: "@ + input
    }
}

pub fn compose_user_message(context: &str, input: &str) -> (r: String)
    ensures
        r@ == spec_compose_user_message(context@, input@),
{
    if context.unicode_len() == 0 {
        return input.to_owned();
    }
    "CONTEXT FROM YOUR STUDY MATERIALS:\n".to_owned().concat(context).concat(
        "\n\n---\n\nQUESTION: ",
    ).concat(input)
}

} // verus!
